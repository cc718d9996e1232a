//! The indexes hold what the registered predicates watch, neither less nor more.
use crate::calculation::CalcId;
use crate::entity::EntityTypeId;
use crate::entity::FieldId;
use crate::predicate::holds;
use crate::predicate::Cond;
use crate::predicate::Env;
use crate::runtime::index::Hit;
use crate::runtime::indexes::cell_key;
use crate::runtime::indexes::Indexes;
use crate::runtime::once::at_most_once;
use crate::runtime::once::never;
use crate::runtime::registry::added;
use crate::runtime::registry::distinct_groups;
use crate::runtime::registry::entered_once;
use crate::runtime::registry::grown;
use crate::runtime::registry::hits_at;
use crate::runtime::registry::not_entered;
use crate::runtime::registry::subs_grown;
use crate::runtime::registry::types_covered;
use crate::runtime::registry::watched_at;
use crate::runtime::scope::flattened;
use crate::runtime::scope::Atom;
use crate::runtime::CalcInfo;
use crate::value::Val;
use vstd::prelude::*;

verus! {

/// What a calculation watches: a write to every group triggers it.
pub open spec fn watched_groups(info: CalcInfo) -> Seq<Seq<Atom>> {
    distinct_groups(flattened(info.pred.scope)->0)
}

/// The calculation runs for every instance in every frame.
pub open spec fn runs_always(info: CalcInfo, clock_ty: EntityTypeId, frame: FieldId) -> bool {
    let gs = watched_groups(info);
    &&& gs.len() == 1
    &&& gs[0] == seq![Atom::Type(clock_ty, frame)]
    &&& info.pred.cond is True
    &&& info.pred.delivery is Each
}

/// Group `g` of calculation `c` watches the atom.
pub open spec fn subscribes(infos: Seq<CalcInfo>, c: CalcId, g: u32, a: Atom) -> bool {
    &&& c.0 < infos.len()
    &&& g < watched_groups(infos[c.0 as int]).len()
    &&& watched_groups(infos[c.0 as int])[g as int].contains(a)
}

/// No write to the field with this key for which the condition holds is missed.
pub open spec fn covered_at(idx: Indexes, k: u64, cond: Cond, c: CalcId, g: u32) -> bool {
    forall|env: Env, tys: Seq<EntityTypeId>|
        #![trigger holds(cond, env), tys[c.0 as int]]
        holds(cond, env) && c.0 < tys.len() && env.sub.ty == tys[c.0 as int] ==> hits_at(
            idx,
            k,
            env.new,
            env.old,
            tys,
            Hit { calc: c, group: g, sub: None },
        ) || hits_at(
            idx,
            k,
            env.new,
            env.old,
            tys,
            Hit { calc: c, group: g, sub: Some(env.sub) },
        )
}

/// The indexes bind exactly the atoms of the registered scopes. Calculations that run always
/// are listed apart.
pub open spec fn bound_ok(
    idx: Indexes,
    infos: Seq<CalcInfo>,
    ecs: Seq<CalcId>,
    clock_ty: EntityTypeId,
    frame: FieldId,
) -> bool {
    &&& forall|c: int|
        0 <= c < infos.len() ==> (#[trigger] infos[c]).n_groups == watched_groups(infos[c]).len()
    &&& forall|c: int|
        0 <= c < infos.len() ==> (ecs.contains(CalcId(c as u32)) <==> runs_always(
            #[trigger] infos[c],
            clock_ty,
            frame,
        ))
    &&& forall|ty: EntityTypeId, f: FieldId, c: CalcId, g: u32| #[trigger]
        idx.own_subs(ty, f).contains((c, g)) <==> subscribes(infos, c, g, Atom::Own(f))
            && infos[c.0 as int].ty == ty && !runs_always(infos[c.0 as int], clock_ty, frame)
    &&& forall|ty: EntityTypeId, r: FieldId, f: FieldId, c: CalcId, g: u32| #[trigger]
        idx.inst_subs(ty, r, f).contains((c, g)) <==> subscribes(
            infos,
            c,
            g,
            Atom::Inst { ref_field: r, field: f },
        ) && infos[c.0 as int].ty == ty && !runs_always(infos[c.0 as int], clock_ty, frame)
    &&& forall|c: CalcId, g: u32, t: EntityTypeId, f: FieldId| #[trigger]
        subscribes(infos, c, g, Atom::Type(t, f)) && !runs_always(
            infos[c.0 as int],
            clock_ty,
            frame,
        ) ==> covered_at(idx, cell_key(t, f), infos[c.0 as int].pred.cond, c, g)
    &&& forall|k: u64, new: Val, old: Val, tys: Seq<EntityTypeId>, h: Hit| #[trigger]
        hits_at(idx, k, new, old, tys, h) ==> {
            &&& h.calc.0 < infos.len()
            &&& h.group < watched_groups(infos[h.calc.0 as int]).len()
            &&& watched_at(watched_groups(infos[h.calc.0 as int])[h.group as int], k)
            &&& !runs_always(infos[h.calc.0 as int], clock_ty, frame)
        }
}

/// A new calculation subscribes to an atom with the groups that have it.
proof fn lemma_added(gs: Seq<Seq<Atom>>, id: CalcId, a: Atom, n: int, c: CalcId, g: u32)
    requires
        0 <= n <= gs.len() <= u32::MAX,
    ensures
        added(gs, id, a, n).contains((c, g)) <==> c == id && g < n && gs[g as int].contains(a),
    decreases n,
{
    if n > 0 {
        lemma_added(gs, id, a, n - 1, c, g);
        let p = added(gs, id, a, n - 1);
        let q = added(gs, id, a, n);
        if gs[n - 1].contains(a) {
            assert(q[p.len() as int] == (id, (n - 1) as u32));
            if p.contains((c, g)) {
                let k = choose|k: int| 0 <= k < p.len() && p[k] == (c, g);
                assert(q[k] == (c, g));
            }
            if q.contains((c, g)) {
                let k = choose|k: int| 0 <= k < q.len() && q[k] == (c, g);
                if k < p.len() {
                    assert(p[k] == (c, g));
                }
            }
        }
    }
}

proof fn lemma_concat(a: Seq<(CalcId, u32)>, b: Seq<(CalcId, u32)>, x: (CalcId, u32))
    ensures
        (a + b).contains(x) <==> a.contains(x) || b.contains(x),
{
    let s = a + b;
    if a.contains(x) {
        let k = choose|k: int| 0 <= k < a.len() && a[k] == x;
        assert(s[k] == x);
    }
    if b.contains(x) {
        let k = choose|k: int| 0 <= k < b.len() && b[k] == x;
        assert(s[a.len() + k] == x);
    }
    if s.contains(x) {
        let k = choose|k: int| 0 <= k < s.len() && s[k] == x;
        if k < a.len() {
            assert(a[k] == x);
        } else {
            assert(b[k - a.len()] == x);
        }
    }
}

/// A registration that runs always leaves the bindings as they are.
pub proof fn lemma_bound_always(
    idx: Indexes,
    infos0: Seq<CalcInfo>,
    infos1: Seq<CalcInfo>,
    ecs0: Seq<CalcId>,
    ecs1: Seq<CalcId>,
    clock_ty: EntityTypeId,
    frame: FieldId,
)
    requires
        bound_ok(idx, infos0, ecs0, clock_ty, frame),
        infos1.len() == infos0.len() + 1,
        infos1.len() <= u32::MAX,
        forall|c: int| 0 <= c < infos0.len() ==> #[trigger] infos1[c] == infos0[c],
        infos1.last().n_groups == watched_groups(infos1.last()).len(),
        runs_always(infos1.last(), clock_ty, frame),
        ecs1 == ecs0.push(CalcId(infos0.len() as u32)),
        forall|i: int| 0 <= i < ecs0.len() ==> (#[trigger] ecs0[i]).0 < infos0.len(),
    ensures
        bound_ok(idx, infos1, ecs1, clock_ty, frame),
{
    let n = infos0.len() as int;
    assert forall|c: CalcId, g: u32, a: Atom| c.0 < n implies #[trigger] subscribes(
        infos1,
        c,
        g,
        a,
    ) == subscribes(infos0, c, g, a) by {
        assert(infos1[c.0 as int] == infos0[c.0 as int]);
    }
    lemma_ecs(infos0, infos1, ecs0, ecs1, true);
    assert forall|ty: EntityTypeId, f: FieldId, c: CalcId, g: u32| #[trigger] idx.own_subs(
        ty,
        f,
    ).contains((c, g)) <==> subscribes(infos1, c, g, Atom::Own(f)) && infos1[c.0 as int].ty == ty
        && !runs_always(infos1[c.0 as int], clock_ty, frame) by {
        if c.0 < n {
            assert(infos1[c.0 as int] == infos0[c.0 as int]);
        }
    }
    assert forall|ty: EntityTypeId, r: FieldId, f: FieldId, c: CalcId, g: u32| #[trigger]
        idx.inst_subs(ty, r, f).contains((c, g)) <==> subscribes(
            infos1,
            c,
            g,
            Atom::Inst { ref_field: r, field: f },
        ) && infos1[c.0 as int].ty == ty && !runs_always(infos1[c.0 as int], clock_ty, frame) by {
        if c.0 < n {
            assert(infos1[c.0 as int] == infos0[c.0 as int]);
        }
    }
    assert forall|c: CalcId, g: u32, t: EntityTypeId, f: FieldId| #[trigger]
        subscribes(infos1, c, g, Atom::Type(t, f)) && !runs_always(
            infos1[c.0 as int],
            clock_ty,
            frame,
        ) implies covered_at(idx, cell_key(t, f), infos1[c.0 as int].pred.cond, c, g) by {
        assert(c.0 < n);
        assert(subscribes(infos0, c, g, Atom::Type(t, f)));
        assert(infos1[c.0 as int] == infos0[c.0 as int]);
    }
    assert forall|k: u64, new: Val, old: Val, tys: Seq<EntityTypeId>, h: Hit| #[trigger]
        hits_at(idx, k, new, old, tys, h) implies {
        &&& h.calc.0 < infos1.len()
        &&& h.group < watched_groups(infos1[h.calc.0 as int]).len()
        &&& watched_at(watched_groups(infos1[h.calc.0 as int])[h.group as int], k)
        &&& !runs_always(infos1[h.calc.0 as int], clock_ty, frame)
    } by {
        assert(infos1[h.calc.0 as int] == infos0[h.calc.0 as int]);
    }
    assert forall|c: int| 0 <= c < infos1.len() implies (#[trigger] infos1[c]).n_groups
        == watched_groups(infos1[c]).len() by {
        if c < n {
            assert(infos1[c] == infos0[c]);
        }
    }
    assert forall|c: int| 0 <= c < infos1.len() implies (ecs1.contains(CalcId(c as u32))
        <==> runs_always(#[trigger] infos1[c], clock_ty, frame)) by {
        if c < n {
            assert(infos1[c] == infos0[c]);
        }
    }
}

/// The list of calculations that run always, after one more calculation.
proof fn lemma_ecs(
    infos0: Seq<CalcInfo>,
    infos1: Seq<CalcInfo>,
    ecs0: Seq<CalcId>,
    ecs1: Seq<CalcId>,
    always: bool,
)
    requires
        infos1.len() == infos0.len() + 1,
        infos1.len() <= u32::MAX,
        ecs1 == (if always {
            ecs0.push(CalcId(infos0.len() as u32))
        } else {
            ecs0
        }),
        forall|i: int| 0 <= i < ecs0.len() ==> (#[trigger] ecs0[i]).0 < infos0.len(),
    ensures
        forall|c: int|
            0 <= c < infos0.len() ==> (#[trigger] ecs1.contains(CalcId(c as u32)) <==> ecs0.contains(
                CalcId(c as u32),
            )),
        ecs1.contains(CalcId(infos0.len() as u32)) <==> always,
{
    let n = infos0.len() as int;
    assert forall|c: int| 0 <= c < infos0.len() implies (#[trigger] ecs1.contains(CalcId(c as u32))
        <==> ecs0.contains(CalcId(c as u32))) by {
        let x = CalcId(c as u32);
        if ecs0.contains(x) {
            let k = choose|k: int| 0 <= k < ecs0.len() && ecs0[k] == x;
            assert(ecs1[k] == x);
        }
        if ecs1.contains(x) {
            let k = choose|k: int| 0 <= k < ecs1.len() && ecs1[k] == x;
            if k < ecs0.len() {
                assert(ecs0[k] == x);
            }
        }
    }
    if always {
        assert(ecs1[ecs0.len() as int] == CalcId(n as u32));
    } else if ecs1.contains(CalcId(n as u32)) {
        let k = choose|k: int| 0 <= k < ecs0.len() && ecs0[k] == CalcId(n as u32);
        assert(ecs0[k].0 < n);
    }
}

/// A registration binds the atoms of its scope.
pub proof fn lemma_bound_grown(
    idx: Indexes,
    before: Indexes,
    infos0: Seq<CalcInfo>,
    infos1: Seq<CalcInfo>,
    ecs: Seq<CalcId>,
    clock_ty: EntityTypeId,
    frame: FieldId,
)
    requires
        bound_ok(before, infos0, ecs, clock_ty, frame),
        infos1.len() == infos0.len() + 1,
        infos1.len() <= u32::MAX,
        forall|c: int| 0 <= c < infos0.len() ==> #[trigger] infos1[c] == infos0[c],
        infos1.last().n_groups == watched_groups(infos1.last()).len(),
        !runs_always(infos1.last(), clock_ty, frame),
        forall|i: int| 0 <= i < ecs.len() ==> (#[trigger] ecs[i]).0 < infos0.len(),
        ({
            let id = CalcId(infos0.len() as u32);
            let gs = watched_groups(infos1.last());
            let n = gs.len() as int;
            &&& gs.len() <= u32::MAX
            &&& subs_grown(idx, before, infos1.last().ty, gs, id, n)
            &&& grown(idx, before, gs, id, n)
            &&& types_covered(idx, gs, infos1.last().pred.cond, id, n)
        }),
    ensures
        bound_ok(idx, infos1, ecs, clock_ty, frame),
{
    let m = infos0.len() as int;
    let id = CalcId(m as u32);
    let info = infos1.last();
    let gs = watched_groups(info);
    let n = gs.len() as int;
    lemma_ecs(infos0, infos1, ecs, ecs, false);
    assert forall|c: CalcId, g: u32, a: Atom| c.0 < m implies #[trigger] subscribes(
        infos1,
        c,
        g,
        a,
    ) == subscribes(infos0, c, g, a) by {
        assert(infos1[c.0 as int] == infos0[c.0 as int]);
    }
    assert forall|ty: EntityTypeId, f: FieldId, c: CalcId, g: u32| #[trigger] idx.own_subs(
        ty,
        f,
    ).contains((c, g)) <==> subscribes(infos1, c, g, Atom::Own(f)) && infos1[c.0 as int].ty == ty
        && !runs_always(infos1[c.0 as int], clock_ty, frame) by {
        let a = Atom::Own(f);
        let old_subs = before.own_subs(ty, f);
        let more = added(gs, id, a, n);
        lemma_added(gs, id, a, n, c, g);
        lemma_concat(old_subs, more, (c, g));
        assert(old_subs.contains((c, g)) <==> subscribes(infos0, c, g, a) && infos0[c.0 as int].ty
            == ty && !runs_always(infos0[c.0 as int], clock_ty, frame));
        if c.0 < m {
            assert(infos1[c.0 as int] == infos0[c.0 as int]);
        }
    }
    assert forall|ty: EntityTypeId, r: FieldId, f: FieldId, c: CalcId, g: u32| #[trigger]
        idx.inst_subs(ty, r, f).contains((c, g)) <==> subscribes(
            infos1,
            c,
            g,
            Atom::Inst { ref_field: r, field: f },
        ) && infos1[c.0 as int].ty == ty && !runs_always(infos1[c.0 as int], clock_ty, frame) by {
        let a = Atom::Inst { ref_field: r, field: f };
        let old_subs = before.inst_subs(ty, r, f);
        let more = added(gs, id, a, n);
        lemma_added(gs, id, a, n, c, g);
        lemma_concat(old_subs, more, (c, g));
        assert(old_subs.contains((c, g)) <==> subscribes(infos0, c, g, a) && infos0[c.0 as int].ty
            == ty && !runs_always(infos0[c.0 as int], clock_ty, frame));
        if c.0 < m {
            assert(infos1[c.0 as int] == infos0[c.0 as int]);
        }
    }
    assert forall|c: CalcId, g: u32, t: EntityTypeId, f: FieldId| #[trigger]
        subscribes(infos1, c, g, Atom::Type(t, f)) && !runs_always(
            infos1[c.0 as int],
            clock_ty,
            frame,
        ) implies covered_at(idx, cell_key(t, f), infos1[c.0 as int].pred.cond, c, g) by {
        let k = cell_key(t, f);
        if c.0 < m {
            assert(infos1[c.0 as int] == infos0[c.0 as int]);
            assert(subscribes(infos0, c, g, Atom::Type(t, f)));
            let cond = infos0[c.0 as int].pred.cond;
            lemma_covered_kept(idx, before, gs, id, n, k, cond, c, g);
        } else {
            assert(c == id);
            let i = choose|i: int| 0 <= i < gs[g as int].len() && gs[g as int][i] == Atom::Type(t, f);
            assert(gs[g as int][i] is Type);
            lemma_covered(idx, k, info.pred.cond, c, g);
        }
    }
    assert forall|k: u64, new: Val, old: Val, tys: Seq<EntityTypeId>, h: Hit| #[trigger]
        hits_at(idx, k, new, old, tys, h) implies {
        &&& h.calc.0 < infos1.len()
        &&& h.group < watched_groups(infos1[h.calc.0 as int]).len()
        &&& watched_at(watched_groups(infos1[h.calc.0 as int])[h.group as int], k)
        &&& !runs_always(infos1[h.calc.0 as int], clock_ty, frame)
    } by {
        if hits_at(before, k, new, old, tys, h) {
            assert(infos1[h.calc.0 as int] == infos0[h.calc.0 as int]);
        }
    }
    assert forall|c: int| 0 <= c < infos1.len() implies (#[trigger] infos1[c]).n_groups
        == watched_groups(infos1[c]).len() by {
        if c < m {
            assert(infos1[c] == infos0[c]);
        }
    }
    assert forall|c: int| 0 <= c < infos1.len() implies (ecs.contains(CalcId(c as u32))
        <==> runs_always(#[trigger] infos1[c], clock_ty, frame)) by {
        if c < m {
            assert(infos1[c] == infos0[c]);
        }
    }
}

/// What is covered stays covered when no hit is lost.
proof fn lemma_covered_kept(
    after: Indexes,
    before: Indexes,
    gs: Seq<Seq<Atom>>,
    id: CalcId,
    n: int,
    k: u64,
    cond: Cond,
    c: CalcId,
    g: u32,
)
    requires
        grown(after, before, gs, id, n),
        covered_at(before, k, cond, c, g),
    ensures
        covered_at(after, k, cond, c, g),
{
    assert forall|env: Env, tys: Seq<EntityTypeId>|
        #![trigger holds(cond, env), tys[c.0 as int]]
        holds(cond, env) && c.0 < tys.len() && env.sub.ty == tys[c.0 as int] implies hits_at(
        after,
        k,
        env.new,
        env.old,
        tys,
        Hit { calc: c, group: g, sub: None },
    ) || hits_at(
        after,
        k,
        env.new,
        env.old,
        tys,
        Hit { calc: c, group: g, sub: Some(env.sub) },
    ) by {
        let h1 = Hit { calc: c, group: g, sub: None };
        let h2 = Hit { calc: c, group: g, sub: Some(env.sub) };
        assert(hits_at(before, k, env.new, env.old, tys, h1) || hits_at(
            before,
            k,
            env.new,
            env.old,
            tys,
            h2,
        ));
    }
}

/// An index that covers a condition misses nothing.
proof fn lemma_covered(idx: Indexes, k: u64, cond: Cond, c: CalcId, g: u32)
    requires
        idx.type_@.contains_key(k),
        idx.type_@[k].covers(cond, c, g),
    ensures
        covered_at(idx, k, cond, c, g),
{
    assert forall|env: Env, tys: Seq<EntityTypeId>|
        #![trigger holds(cond, env), tys[c.0 as int]]
        holds(cond, env) && c.0 < tys.len() && env.sub.ty == tys[c.0 as int] implies hits_at(
        idx,
        k,
        env.new,
        env.old,
        tys,
        Hit { calc: c, group: g, sub: None },
    ) || hits_at(
        idx,
        k,
        env.new,
        env.old,
        tys,
        Hit { calc: c, group: g, sub: Some(env.sub) },
    ) by {
        assert(idx.type_@[k].hits(env.new, env.old, tys) == idx.type_@[k].hits(
            env.new,
            env.old,
            tys,
        ));
        assert(idx.type_@[k].reaches(env.new, env.old, tys, c, g, env.sub));
    }
}

/// No subscription is in the indexes twice: a write finds each group of a calculation once at
/// most by each of the three ways.
pub open spec fn bound_once(idx: Indexes) -> bool {
    &&& forall|ty: EntityTypeId, f: FieldId| (#[trigger] idx.own_subs(ty, f)).no_duplicates()
    &&& forall|ty: EntityTypeId, r: FieldId, f: FieldId|
        (#[trigger] idx.inst_subs(ty, r, f)).no_duplicates()
    &&& forall|k: u64, new: Val, old: Val, tys: Seq<EntityTypeId>, c: CalcId, g: u32| #[trigger]
        at_most_once(idx.hits_in(k, new, old, tys), c, g)
}

/// What is bound names registered calculations: one that is not is not entered.
pub proof fn lemma_not_entered(
    idx: Indexes,
    infos: Seq<CalcInfo>,
    ecs: Seq<CalcId>,
    clock_ty: EntityTypeId,
    frame: FieldId,
    id: CalcId,
)
    requires
        bound_ok(idx, infos, ecs, clock_ty, frame),
        id.0 >= infos.len(),
    ensures
        not_entered(idx, id),
{
    assert forall|k: u64, new: Val, old: Val, tys: Seq<EntityTypeId>, g: u32| #[trigger]
        never(idx.hits_in(k, new, old, tys), id, g) by {
        assert forall|a: Hit| a.calc == id && a.group == g implies #[trigger] idx.hits_in(
            k,
            new,
            old,
            tys,
        ).count(a) == 0 by {
            if idx.type_@.contains_key(k) {
                let hs = idx.type_@[k].hits(new, old, tys);
                vstd::seq_lib::to_multiset_contains(hs, a);
                if hs.contains(a) {
                    assert(hits_at(idx, k, new, old, tys, a));
                }
            }
        }
    }
}

/// The subscriptions of a new calculation to an atom are distinct.
proof fn lemma_added_once(gs: Seq<Seq<Atom>>, id: CalcId, a: Atom, n: int)
    requires
        0 <= n <= gs.len() <= u32::MAX,
    ensures
        added(gs, id, a, n).no_duplicates(),
    decreases n,
{
    if n > 0 {
        lemma_added_once(gs, id, a, n - 1);
        let p = added(gs, id, a, n - 1);
        let q = added(gs, id, a, n);
        if gs[n - 1].contains(a) {
            let x = (id, (n - 1) as u32);
            lemma_added(gs, id, a, n - 1, id, (n - 1) as u32);
            assert forall|i: int, j: int|
                0 <= i < q.len() && 0 <= j < q.len() && i != j implies q[i] != q[j] by {
                if i < p.len() && j < p.len() {
                    assert(p[i] != p[j]);
                } else if i < p.len() {
                    assert(p.contains(p[i]));
                } else {
                    assert(p.contains(p[j]));
                }
            }
        }
    }
}

proof fn lemma_subs_once(
    a: Seq<(CalcId, u32)>,
    b: Seq<(CalcId, u32)>,
    id: CalcId,
)
    requires
        a.no_duplicates(),
        b.no_duplicates(),
        forall|i: int| 0 <= i < a.len() ==> (#[trigger] a[i]).0 != id,
        forall|i: int| 0 <= i < b.len() ==> (#[trigger] b[i]).0 == id,
    ensures
        (a + b).no_duplicates(),
{
    let s = a + b;
    assert forall|i: int, j: int|
        0 <= i < s.len() && 0 <= j < s.len() && i != j implies s[i] != s[j] by {
        if i < a.len() && j < a.len() {
            assert(a[i] != a[j]);
        } else if i >= a.len() && j >= a.len() {
            assert(b[i - a.len()] != b[j - a.len()]);
        } else if i < a.len() {
            assert(a[i].0 != id && b[j - a.len()].0 == id);
        } else {
            assert(a[j].0 != id && b[i - a.len()].0 == id);
        }
    }
}

/// A registration binds no atom twice.
pub proof fn lemma_once_grown(
    idx: Indexes,
    before: Indexes,
    infos: Seq<CalcInfo>,
    ecs: Seq<CalcId>,
    clock_ty: EntityTypeId,
    frame: FieldId,
    ty: EntityTypeId,
    gs: Seq<Seq<Atom>>,
    id: CalcId,
)
    requires
        bound_ok(before, infos, ecs, clock_ty, frame),
        bound_once(before),
        id.0 >= infos.len(),
        gs.len() <= u32::MAX,
        subs_grown(idx, before, ty, gs, id, gs.len() as int),
        entered_once(idx, before, id),
    ensures
        bound_once(idx),
{
    let n = gs.len() as int;
    assert forall|t: EntityTypeId, f: FieldId| (#[trigger] idx.own_subs(t, f)).no_duplicates() by {
        let a = Atom::Own(f);
        let subs = before.own_subs(t, f);
        let more = added(gs, id, a, n);
        lemma_added_once(gs, id, a, n);
        assert forall|i: int| 0 <= i < subs.len() implies (#[trigger] subs[i]).0 != id by {
            assert(before.own_subs(t, f).contains((subs[i].0, subs[i].1)));
        }
        assert forall|i: int| 0 <= i < more.len() implies (#[trigger] more[i]).0 == id by {
            lemma_added(gs, id, a, n, more[i].0, more[i].1);
            assert(more.contains((more[i].0, more[i].1)));
        }
        lemma_subs_once(subs, more, id);
    }
    assert forall|t: EntityTypeId, r: FieldId, f: FieldId|
        (#[trigger] idx.inst_subs(t, r, f)).no_duplicates() by {
        let a = Atom::Inst { ref_field: r, field: f };
        let subs = before.inst_subs(t, r, f);
        let more = added(gs, id, a, n);
        lemma_added_once(gs, id, a, n);
        assert forall|i: int| 0 <= i < subs.len() implies (#[trigger] subs[i]).0 != id by {
            assert(before.inst_subs(t, r, f).contains((subs[i].0, subs[i].1)));
        }
        assert forall|i: int| 0 <= i < more.len() implies (#[trigger] more[i]).0 == id by {
            lemma_added(gs, id, a, n, more[i].0, more[i].1);
            assert(more.contains((more[i].0, more[i].1)));
        }
        lemma_subs_once(subs, more, id);
    }
    assert forall|k: u64, new: Val, old: Val, tys: Seq<EntityTypeId>, c: CalcId, g: u32| #[trigger]
        at_most_once(idx.hits_in(k, new, old, tys), c, g) by {
        let a = idx.hits_in(k, new, old, tys);
        let b = before.hits_in(k, new, old, tys);
        if c != id {
            assert(at_most_once(b, c, g));
            assert forall|x: Hit, y: Hit|
                #![trigger a.count(x), a.count(y)]
                x.calc == c && x.group == g && y.calc == c && y.group == g && a.count(x) > 0
                    && a.count(y) > 0 implies x == y && a.count(x) == 1 by {
                assert(a.count(x) == b.count(x));
                assert(a.count(y) == b.count(y));
            }
        }
    }
}

}
