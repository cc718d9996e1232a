//! Conjunctions: a calculation with several groups runs once in a frame, when each of its
//! groups was written to.
use crate::calculation::CalcId;
use crate::entity::InstanceId;
use crate::runtime::engine::Runtime;
use crate::runtime::index::Hit;
use crate::runtime::laws::delivered;
use crate::runtime::lifecycle::WriteModel;
use crate::runtime::route::all_seen;
use crate::runtime::route::deliver_step;
use crate::runtime::route::latch_at;
use crate::runtime::route::latch_step;
use crate::runtime::route::lemma_latch_at;
use crate::runtime::route::folds_of;
use crate::runtime::route::Frame;
use crate::runtime::route::LatchModel;
use crate::runtime::route::Trig;
use crate::runtime::routing::deliver_many;
use crate::runtime::routing::hit_ok;
use crate::runtime::routing::lemma_hits_ok;
use crate::runtime::routing::route_hits;
use crate::runtime::routing::route_log;
use crate::runtime::routing::start_frame;
use crate::runtime::routing::targets_of;
use crate::runtime::routing::World;
use vstd::prelude::*;

verus! {

/// The latch of the subscriber, if it has one.
pub open spec fn latch_of(s: Seq<LatchModel>, c: CalcId, sub: InstanceId) -> Option<LatchModel> {
    let i = latch_at(s, c, sub);
    if 0 <= i < s.len() {
        Some(s[i])
    } else {
        None
    }
}

/// Group `g` was written to.
pub open spec fn got(s: Seq<LatchModel>, c: CalcId, sub: InstanceId, g: u32) -> bool {
    match latch_of(s, c, sub) {
        Some(l) => g < l.seen.len() && l.seen[g as int],
        None => false,
    }
}

/// The calculation runs for the subscriber.
pub open spec fn runs(ts: Seq<Trig>, c: CalcId, sub: InstanceId) -> bool {
    exists|i: int| 0 <= i < ts.len() && (#[trigger] ts[i]).calc == c && ts[i].sub == sub
}

/// The calculation runs for the subscriber twice.
pub open spec fn runs_twice(ts: Seq<Trig>, c: CalcId, sub: InstanceId) -> bool {
    exists|i: int, j: int|
        0 <= i < j < ts.len() && (#[trigger] ts[i]).calc == c && ts[i].sub == sub && (
        #[trigger] ts[j]).calc == c && ts[j].sub == sub
}

/// A conjunction runs once every group was written to, and once only.
pub open spec fn latched(f: Frame, c: CalcId, sub: InstanceId, n: u32) -> bool {
    &&& match latch_of(f.latches, c, sub) {
        Some(l) => l.seen.len() == n && l.fired == all_seen(l.seen) && (runs(f.triggers, c, sub)
            <==> l.fired),
        None => !runs(f.triggers, c, sub),
    }
    &&& !runs_twice(f.triggers, c, sub)
}

/// What the place of a latch is.
proof fn lemma_latch_found(s: Seq<LatchModel>, c: CalcId, sub: InstanceId)
    ensures
        0 <= latch_at(s, c, sub) <= s.len(),
        forall|i: int|
            0 <= i < latch_at(s, c, sub) ==> !((#[trigger] s[i]).calc == c && s[i].sub == sub),
        latch_at(s, c, sub) < s.len() ==> s[latch_at(s, c, sub)].calc == c && s[latch_at(
            s,
            c,
            sub,
        )].sub == sub,
    decreases s.len(),
{
    if s.len() > 0 && !(s[0].calc == c && s[0].sub == sub) {
        let t = s.drop_first();
        lemma_latch_found(t, c, sub);
        assert forall|i: int| 0 <= i < latch_at(s, c, sub) implies !((#[trigger] s[i]).calc == c
            && s[i].sub == sub) by {
            if i > 0 {
                assert(t[i - 1] == s[i]);
            }
        }
    }
}

/// A latch that is put elsewhere leaves the subscriber's own.
proof fn lemma_latch_elsewhere(
    s: Seq<LatchModel>,
    x: CalcId,
    y: InstanceId,
    n: u32,
    group: u32,
    c: CalcId,
    sub: InstanceId,
)
    requires
        x != c || y != sub,
    ensures
        latch_of(latch_step(s, x, y, n, group).0, c, sub) == latch_of(s, c, sub),
{
    let t = latch_step(s, x, y, n, group).0;
    let i = latch_at(s, x, y);
    let k = latch_at(s, c, sub);
    lemma_latch_found(s, x, y);
    lemma_latch_found(s, c, sub);
    assert forall|j: int| 0 <= j < k implies !((#[trigger] t[j]).calc == c && t[j].sub == sub) by {
        if j != i {
            assert(t[j] == s[j]);
        }
    }
    if k < s.len() {
        assert(t[k] == s[k]);
        lemma_latch_at(t, c, sub, k);
    } else {
        assert forall|j: int| 0 <= j < t.len() implies !((#[trigger] t[j]).calc == c && t[j].sub
            == sub) by {
            if j < s.len() && j != i {
                assert(t[j] == s[j]);
            }
        }
        lemma_latch_at(t, c, sub, t.len() as int);
    }
}

/// A latch that is put is found.
proof fn lemma_latch_here(s: Seq<LatchModel>, c: CalcId, sub: InstanceId, n: u32, group: u32)
    ensures
        ({
            let before = match latch_of(s, c, sub) {
                Some(l) => l,
                None => LatchModel {
                    calc: c,
                    sub,
                    seen: Seq::new(n as nat, |k: int| false),
                    fired: false,
                },
            };
            let seen = before.seen.update(group as int, true);
            latch_of(latch_step(s, c, sub, n, group).0, c, sub) == Some(
                LatchModel { calc: c, sub, seen, fired: before.fired || all_seen(seen) },
            )
        }),
{
    let t = latch_step(s, c, sub, n, group).0;
    let i = latch_at(s, c, sub);
    lemma_latch_found(s, c, sub);
    assert forall|j: int| 0 <= j < i implies !((#[trigger] t[j]).calc == c && t[j].sub == sub) by {
        assert(t[j] == s[j]);
    }
    lemma_latch_at(t, c, sub, i);
}

/// A trigger more.
proof fn lemma_runs_push(ts: Seq<Trig>, t: Trig, c: CalcId, sub: InstanceId)
    ensures
        runs(ts.push(t), c, sub) <==> runs(ts, c, sub) || (t.calc == c && t.sub == sub),
        runs_twice(ts.push(t), c, sub) <==> runs_twice(ts, c, sub) || (runs(ts, c, sub) && t.calc
            == c && t.sub == sub),
{
    let p = ts.push(t);
    let n = ts.len() as int;
    assert(p[n] == t);
    if runs(ts, c, sub) {
        let i = choose|i: int|
            0 <= i < ts.len() && (#[trigger] ts[i]).calc == c && ts[i].sub == sub;
        assert(p[i] == ts[i]);
        if t.calc == c && t.sub == sub {
            assert(p[i].calc == c && p[n].calc == c);
        }
    }
    if runs(p, c, sub) {
        let i = choose|i: int| 0 <= i < p.len() && (#[trigger] p[i]).calc == c && p[i].sub == sub;
        if i < n {
            assert(ts[i] == p[i]);
        }
    }
    if runs_twice(ts, c, sub) {
        let (i, j) = choose|i: int, j: int|
            0 <= i < j < ts.len() && (#[trigger] ts[i]).calc == c && ts[i].sub == sub && (
            #[trigger] ts[j]).calc == c && ts[j].sub == sub;
        assert(p[i] == ts[i] && p[j] == ts[j]);
    }
    if runs_twice(p, c, sub) {
        let (i, j) = choose|i: int, j: int|
            0 <= i < j < p.len() && (#[trigger] p[i]).calc == c && p[i].sub == sub && (
            #[trigger] p[j]).calc == c && p[j].sub == sub;
        assert(ts[i] == p[i]);
        if j < n {
            assert(ts[j] == p[j]);
        }
    }
}

/// One step of routing, for a conjunction.
proof fn lemma_step(
    world: World,
    f: Frame,
    x: CalcId,
    group: u32,
    y: InstanceId,
    w: WriteModel,
    c: CalcId,
    sub: InstanceId,
    g: u32,
)
    requires
        x.0 < world.infos.len(),
        group < world.infos[x.0 as int].n_groups,
        c.0 < world.infos.len(),
        world.infos[c.0 as int].n_groups > 1,
        world.infos[c.0 as int].pred.delivery is Each,
        latched(f, c, sub, world.infos[c.0 as int].n_groups),
        g < world.infos[c.0 as int].n_groups,
    ensures
        ({
            let after = deliver_step(f, world.infos[x.0 as int], x, group, y, w, world.store);
            &&& latched(after, c, sub, world.infos[c.0 as int].n_groups)
            &&& got(after.latches, c, sub, g) <==> got(f.latches, c, sub, g) || (x == c && y == sub
                && group == g)
        }),
{
    let info = world.infos[x.0 as int];
    let n = info.n_groups;
    let after = deliver_step(f, info, x, group, y, w, world.store);
    if n > 1 {
        let (latches, fire) = latch_step(f.latches, x, y, n, group);
        if x == c && y == sub {
            lemma_latch_here(f.latches, c, sub, n, group);
            let before = match latch_of(f.latches, c, sub) {
                Some(l) => l,
                None => LatchModel {
                    calc: c,
                    sub,
                    seen: Seq::new(n as nat, |k: int| false),
                    fired: false,
                },
            };
            let seen = before.seen.update(group as int, true);
            assert(latch_of(after.latches, c, sub) == latch_of(latches, c, sub));
            if latch_of(f.latches, c, sub) is None {
                lemma_latch_found(f.latches, c, sub);
                assert(!before.seen[group as int]);
                assert(!all_seen(before.seen));
            }
            assert(all_seen(before.seen) ==> all_seen(seen)) by {
                if all_seen(before.seen) {
                    assert forall|k: int| 0 <= k < seen.len() implies #[trigger] seen[k] by {
                        assert(before.seen[k]);
                    }
                }
            }
            assert(before.fired == all_seen(before.seen));
            if fire {
                lemma_runs_push(f.triggers, after.triggers.last(), c, sub);
                assert(after.triggers =~= f.triggers.push(after.triggers.last()));
            }
        } else {
            lemma_latch_elsewhere(f.latches, x, y, n, group, c, sub);
            if fire && info.pred.delivery is Each {
                lemma_runs_push(f.triggers, after.triggers.last(), c, sub);
                assert(after.triggers =~= f.triggers.push(after.triggers.last()));
            }
        }
    } else {
        if info.pred.delivery is Each {
            lemma_runs_push(f.triggers, after.triggers.last(), c, sub);
            assert(after.triggers =~= f.triggers.push(after.triggers.last()));
        }
    }
}

proof fn lemma_many(
    world: World,
    f: Frame,
    x: CalcId,
    group: u32,
    subs: Seq<InstanceId>,
    w: WriteModel,
    n: int,
    c: CalcId,
    sub: InstanceId,
    g: u32,
)
    requires
        0 <= n <= subs.len(),
        x.0 < world.infos.len(),
        group < world.infos[x.0 as int].n_groups,
        c.0 < world.infos.len(),
        world.infos[c.0 as int].n_groups > 1,
        world.infos[c.0 as int].pred.delivery is Each,
        latched(f, c, sub, world.infos[c.0 as int].n_groups),
        g < world.infos[c.0 as int].n_groups,
    ensures
        ({
            let after = deliver_many(world, f, x, group, subs, w, n);
            &&& latched(after, c, sub, world.infos[c.0 as int].n_groups)
            &&& got(after.latches, c, sub, g) <==> got(f.latches, c, sub, g) || (x == c && group
                == g && subs.take(n).contains(sub))
        }),
    decreases n,
{
    if n > 0 {
        lemma_many(world, f, x, group, subs, w, n - 1, c, sub, g);
        let before = deliver_many(world, f, x, group, subs, w, n - 1);
        lemma_step(world, before, x, group, subs[n - 1], w, c, sub, g);
        let s = subs.take(n - 1);
        let t = subs.take(n);
        assert(t =~= s.push(subs[n - 1]));
        assert(t.contains(sub) <==> s.contains(sub) || sub == subs[n - 1]) by {
            if s.contains(sub) {
                let k = choose|k: int| 0 <= k < s.len() && s[k] == sub;
                assert(t[k] == sub);
            }
            assert(t[n - 1] == subs[n - 1]);
        }
    }
}

/// One of the first `n` hits delivers to the subscriber for the group.
pub open spec fn hit_within(
    world: World,
    hits: Seq<Hit>,
    w: WriteModel,
    n: int,
    c: CalcId,
    sub: InstanceId,
    g: u32,
) -> bool {
    exists|i: int|
        0 <= i < n && (#[trigger] hits[i]).calc == c && hits[i].group == g && targets_of(
            world,
            hits[i],
            w,
        ).contains(sub)
}

proof fn lemma_hits(
    world: World,
    f: Frame,
    hits: Seq<Hit>,
    w: WriteModel,
    n: int,
    c: CalcId,
    sub: InstanceId,
    g: u32,
)
    requires
        0 <= n <= hits.len(),
        forall|i: int| 0 <= i < hits.len() ==> hit_ok(#[trigger] hits[i], world.infos),
        c.0 < world.infos.len(),
        world.infos[c.0 as int].n_groups > 1,
        world.infos[c.0 as int].pred.delivery is Each,
        latched(f, c, sub, world.infos[c.0 as int].n_groups),
        g < world.infos[c.0 as int].n_groups,
    ensures
        ({
            let after = route_hits(world, f, hits, w, n);
            &&& latched(after, c, sub, world.infos[c.0 as int].n_groups)
            &&& got(after.latches, c, sub, g) <==> got(f.latches, c, sub, g) || hit_within(
                world,
                hits,
                w,
                n,
                c,
                sub,
                g,
            )
        }),
    decreases n,
{
    if n > 0 {
        lemma_hits(world, f, hits, w, n - 1, c, sub, g);
        let before = route_hits(world, f, hits, w, n - 1);
        let h = hits[n - 1];
        let subs = targets_of(world, h, w);
        lemma_many(world, before, h.calc, h.group, subs, w, subs.len() as int, c, sub, g);
        assert(subs.take(subs.len() as int) =~= subs);
        assert(hit_within(world, hits, w, n, c, sub, g) <==> hit_within(
            world,
            hits,
            w,
            n - 1,
            c,
            sub,
            g,
        ) || (h.calc == c && h.group == g && subs.contains(sub)));
    }
}

/// One of the first `n` writes is delivered to the subscriber for the group.
pub open spec fn written_to(
    world: World,
    log: Seq<WriteModel>,
    n: int,
    c: CalcId,
    sub: InstanceId,
    g: u32,
) -> bool {
    exists|k: int| 0 <= k < n && delivered(world, c, g, sub, #[trigger] log[k])
}

proof fn lemma_log(
    world: World,
    start: Frame,
    log: Seq<WriteModel>,
    n: int,
    c: CalcId,
    sub: InstanceId,
    g: u32,
)
    requires
        0 <= n <= log.len(),
        hits_fine(world),
        c.0 < world.infos.len(),
        world.infos[c.0 as int].n_groups > 1,
        world.infos[c.0 as int].pred.delivery is Each,
        latched(start, c, sub, world.infos[c.0 as int].n_groups),
        g < world.infos[c.0 as int].n_groups,
    ensures
        ({
            let after = route_log(world, start, log, n);
            &&& latched(after, c, sub, world.infos[c.0 as int].n_groups)
            &&& got(after.latches, c, sub, g) <==> got(start.latches, c, sub, g) || written_to(
                world,
                log,
                n,
                c,
                sub,
                g,
            )
        }),
    decreases n,
{
    if n > 0 {
        lemma_log(world, start, log, n - 1, c, sub, g);
        let w = log[n - 1];
        let hits = world.idx.hits_of(world.refs, w, world.tys);
        assert forall|i: int| 0 <= i < hits.len() implies hit_ok(#[trigger] hits[i], world.infos) by {
            assert(hit_ok(world.idx.hits_of(world.refs, w, world.tys)[i], world.infos));
        }
        lemma_hits(
            world,
            route_log(world, start, log, n - 1),
            hits,
            w,
            hits.len() as int,
            c,
            sub,
            g,
        );
        assert(hit_within(world, hits, w, hits.len() as int, c, sub, g) <==> delivered(
            world,
            c,
            g,
            sub,
            w,
        )) by {
            if hit_within(world, hits, w, hits.len() as int, c, sub, g) {
                let i = choose|i: int|
                    0 <= i < hits.len() && (#[trigger] hits[i]).calc == c && hits[i].group == g
                        && targets_of(world, hits[i], w).contains(sub);
                assert(hits.contains(hits[i]));
            }
            if delivered(world, c, g, sub, w) {
                let h = choose|h: Hit| #[trigger]
                    hits.contains(h) && h.calc == c && h.group == g && targets_of(
                        world,
                        h,
                        w,
                    ).contains(sub);
                let i = choose|i: int| 0 <= i < hits.len() && hits[i] == h;
                assert(hits[i].calc == c);
            }
        }
        assert(written_to(world, log, n, c, sub, g) <==> written_to(world, log, n - 1, c, sub, g)
            || delivered(world, c, g, sub, log[n - 1]));
    }
}

/// Every hit names a registered calculation and one of its groups.
pub open spec fn hits_fine(world: World) -> bool {
    forall|w: WriteModel, i: int|
        #![trigger world.idx.hits_of(world.refs, w, world.tys)[i]]
        0 <= i < world.idx.hits_of(world.refs, w, world.tys).len() ==> hit_ok(
            world.idx.hits_of(world.refs, w, world.tys)[i],
            world.infos,
        )
}

/// A conjunction waits for all and runs once: a calculation with several groups runs for a
/// subscriber in a frame exactly when each of its groups is delivered a write of the frame,
/// and then one time.
pub proof fn law_conjunctions_wait_for_all<F>(rt: Runtime<F>, c: CalcId, sub: InstanceId)
    requires
        rt.wf(),
        c.0 < rt.infos@.len(),
        rt.infos@[c.0 as int].n_groups > 1,
        rt.infos@[c.0 as int].pred.delivery is Each,
    ensures
        runs(rt.next_routing().triggers, c, sub) <==> forall|g: u32|
            g < rt.infos@[c.0 as int].n_groups ==> #[trigger] written_to(
                rt.world(),
                rt.next_log(),
                rt.next_log().len() as int,
                c,
                sub,
                g,
            ),
        !runs_twice(rt.next_routing().triggers, c, sub),
{
    let world = rt.world();
    let log = rt.next_log();
    let start = start_frame(rt.store, folds_of(rt.folds@), rt.fold_dirty@);
    assert(hits_fine(world)) by {
        assert forall|w: WriteModel, i: int|
            #![trigger world.idx.hits_of(world.refs, w, world.tys)[i]]
            0 <= i < world.idx.hits_of(world.refs, w, world.tys).len() implies hit_ok(
            world.idx.hits_of(world.refs, w, world.tys)[i],
            world.infos,
        ) by {
            lemma_hits_ok(world.idx, world.infos, world.refs, w, world.tys);
        }
    }
    let n = world.infos[c.0 as int].n_groups;
    let m = log.len() as int;
    let after = route_log(world, start, log, m);
    assert(latched(start, c, sub, n));
    assert forall|g: u32| g < n implies (#[trigger] written_to(world, log, m, c, sub, g) <==> got(
        after.latches,
        c,
        sub,
        g,
    )) by {
        lemma_log(world, start, log, m, c, sub, g);
    }
    lemma_log(world, start, log, m, c, sub, 0);
    match latch_of(after.latches, c, sub) {
        Some(l) => {
            if runs(after.triggers, c, sub) {
                assert forall|g: u32| g < n implies #[trigger] written_to(
                    world,
                    log,
                    m,
                    c,
                    sub,
                    g,
                ) by {
                    assert(l.seen[g as int]);
                }
            }
            if forall|g: u32| g < n ==> #[trigger] written_to(world, log, m, c, sub, g) {
                assert forall|k: int| 0 <= k < l.seen.len() implies #[trigger] l.seen[k] by {
                    assert(written_to(world, log, m, c, sub, k as u32));
                }
            }
        },
        None => {
            assert(!got(after.latches, c, sub, 0));
            assert(!written_to(world, log, m, c, sub, 0));
        },
    }
}

}
