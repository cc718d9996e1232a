//! How often a write is delivered: once for each atom by which a subscriber sees it.
use crate::calculation::CalcId;
use crate::entity::EntityTypeId;
use crate::entity::FieldId;
use crate::entity::InstanceId;
use crate::predicate::holds;
use crate::runtime::bindings::covered_at;
use crate::runtime::bindings::runs_always;
use crate::runtime::bindings::subscribes;
use crate::runtime::bindings::watched_groups;
use crate::runtime::engine::Runtime;
use crate::runtime::eval::env_of;
use crate::runtime::index::Hit;
use crate::runtime::indexes::cell_key;
use crate::runtime::indexes::lemma_cell_key;
use crate::runtime::indexes::with_sub;
use crate::runtime::indexes::Indexes;
use crate::runtime::laws::atom_sees;
use crate::runtime::laws::lemma_targets;
use crate::runtime::lifecycle::WriteModel;
use crate::runtime::once::at_most_once;
use crate::runtime::once::lemma_one_place;
use crate::runtime::refs::Edge;
use crate::runtime::registry::hits_at;
use crate::runtime::routing::hit_ok;
use crate::runtime::routing::lemma_hits_ok;
use crate::runtime::routing::targets_of;
use crate::runtime::routing::wakes;
use crate::runtime::routing::World;
use crate::runtime::scope::Atom;
use crate::runtime::store::Store;
use vstd::prelude::*;

verus! {

/// The hit delivers the write to the subscriber, for a group of a calculation.
pub open spec fn delivers(
    world: World,
    h: Hit,
    w: WriteModel,
    c: CalcId,
    g: u32,
    sub: InstanceId,
) -> bool {
    h.calc == c && h.group == g && targets_of(world, h, w).contains(sub)
}

/// How many of the first `n` hits deliver the write.
pub open spec fn deliveries_upto(
    world: World,
    hits: Seq<Hit>,
    w: WriteModel,
    c: CalcId,
    g: u32,
    sub: InstanceId,
    n: int,
) -> nat
    decreases n,
{
    if n <= 0 {
        0
    } else {
        deliveries_upto(world, hits, w, c, g, sub, n - 1) + (if delivers(
            world,
            hits[n - 1],
            w,
            c,
            g,
            sub,
        ) {
            1nat
        } else {
            0nat
        })
    }
}

/// How often a write is delivered to a subscriber, for a group of a calculation.
pub open spec fn deliveries(
    world: World,
    c: CalcId,
    g: u32,
    sub: InstanceId,
    w: WriteModel,
) -> nat {
    let hits = world.idx.hits_of(world.refs, w, world.tys);
    deliveries_upto(world, hits, w, c, g, sub, hits.len() as int)
}

/// Those of some atoms by which the subscriber sees the write.
pub open spec fn seen_by(store: Store, atoms: Seq<Atom>, sub: InstanceId, w: WriteModel) -> Seq<Atom>
    decreases atoms.len(),
{
    if atoms.len() == 0 {
        Seq::empty()
    } else {
        let r = seen_by(store, atoms.drop_last(), sub, w);
        if atom_sees(store, atoms.last(), sub, w) {
            r.push(atoms.last())
        } else {
            r
        }
    }
}

proof fn lemma_seen_by(store: Store, atoms: Seq<Atom>, sub: InstanceId, w: WriteModel)
    requires
        atoms.no_duplicates(),
    ensures
        seen_by(store, atoms, sub, w).no_duplicates(),
        forall|a: Atom| #[trigger]
            seen_by(store, atoms, sub, w).contains(a) <==> atoms.contains(a) && atom_sees(
                store,
                a,
                sub,
                w,
            ),
    decreases atoms.len(),
{
    if atoms.len() > 0 {
        let t = atoms.drop_last();
        let x = atoms.last();
        assert(t.no_duplicates()) by {
            assert forall|i: int, j: int|
                0 <= i < t.len() && 0 <= j < t.len() && i != j implies t[i] != t[j] by {
                assert(atoms[i] != atoms[j]);
            }
        }
        lemma_seen_by(store, t, sub, w);
        let r = seen_by(store, t, sub, w);
        let s = seen_by(store, atoms, sub, w);
        assert(!t.contains(x)) by {
            if t.contains(x) {
                let i = choose|i: int| 0 <= i < t.len() && t[i] == x;
                assert(atoms[i] == atoms[atoms.len() - 1]);
            }
        }
        assert forall|a: Atom| #[trigger] atoms.contains(a) <==> t.contains(a) || a == x by {
            if t.contains(a) {
                let i = choose|i: int| 0 <= i < t.len() && t[i] == a;
                assert(atoms[i] == a);
            }
            if atoms.contains(a) {
                let i = choose|i: int| 0 <= i < atoms.len() && atoms[i] == a;
                if i < t.len() {
                    assert(t[i] == a);
                }
            }
            assert(atoms[atoms.len() - 1] == x);
        }
        if atom_sees(store, x, sub, w) {
            assert(!r.contains(x));
            lemma_push_once(r, x);
        }
    }
}

/// A new item keeps a list without repetitions so.
proof fn lemma_push_once(r: Seq<Atom>, x: Atom)
    requires
        r.no_duplicates(),
        !r.contains(x),
    ensures
        r.push(x).no_duplicates(),
        forall|a: Atom| #[trigger] r.push(x).contains(a) <==> r.contains(a) || a == x,
{
    let s = r.push(x);
    assert forall|i: int, j: int|
        0 <= i < s.len() && 0 <= j < s.len() && i != j implies s[i] != s[j] by {
        if i < r.len() && j < r.len() {
            assert(r[i] != r[j]);
        } else if i < r.len() {
            assert(r.contains(r[i]));
        } else {
            assert(r.contains(r[j]));
        }
    }
    assert forall|a: Atom| #[trigger] s.contains(a) <==> r.contains(a) || a == x by {
        if r.contains(a) {
            let i = choose|i: int| 0 <= i < r.len() && r[i] == a;
            assert(s[i] == a);
        }
        if s.contains(a) {
            let i = choose|i: int| 0 <= i < s.len() && s[i] == a;
            if i < r.len() {
                assert(r[i] == a);
            }
        }
        assert(s[r.len() as int] == x);
    }
}

/// Two lists without repetitions that have the same items are equally long.
proof fn lemma_same_length(a: Seq<Atom>, b: Seq<Atom>)
    requires
        a.no_duplicates(),
        b.no_duplicates(),
        forall|x: Atom| #[trigger] a.contains(x) <==> b.contains(x),
    ensures
        a.len() == b.len(),
{
    a.unique_seq_to_set();
    b.unique_seq_to_set();
    assert(a.to_set() =~= b.to_set());
}

proof fn lemma_deliveries_concat(
    world: World,
    a: Seq<Hit>,
    b: Seq<Hit>,
    w: WriteModel,
    c: CalcId,
    g: u32,
    sub: InstanceId,
    n: int,
)
    requires
        0 <= n <= b.len(),
    ensures
        deliveries_upto(world, a + b, w, c, g, sub, a.len() + n) == deliveries_upto(
            world,
            a,
            w,
            c,
            g,
            sub,
            a.len() as int,
        ) + deliveries_upto(world, b, w, c, g, sub, n),
    decreases n,
{
    if n > 0 {
        lemma_deliveries_concat(world, a, b, w, c, g, sub, n - 1);
        assert((a + b)[a.len() + n - 1] == b[n - 1]);
    } else {
        lemma_deliveries_prefix(world, a, a + b, w, c, g, sub, a.len() as int);
    }
}

proof fn lemma_deliveries_prefix(
    world: World,
    a: Seq<Hit>,
    b: Seq<Hit>,
    w: WriteModel,
    c: CalcId,
    g: u32,
    sub: InstanceId,
    n: int,
)
    requires
        0 <= n <= a.len() <= b.len(),
        forall|i: int| 0 <= i < n ==> #[trigger] a[i] == b[i],
    ensures
        deliveries_upto(world, a, w, c, g, sub, n) == deliveries_upto(world, b, w, c, g, sub, n),
    decreases n,
{
    if n > 0 {
        lemma_deliveries_prefix(world, a, b, w, c, g, sub, n - 1);
        assert(a[n - 1] == b[n - 1]);
    }
}

/// Hits of one group that is found once at most deliver once at most.
proof fn lemma_deliveries_once(
    world: World,
    hits: Seq<Hit>,
    w: WriteModel,
    c: CalcId,
    g: u32,
    sub: InstanceId,
    n: int,
)
    requires
        0 <= n <= hits.len(),
        forall|i: int, j: int|
            0 <= i < j < hits.len() && (#[trigger] hits[i]).calc == c && hits[i].group == g ==> (
            #[trigger] hits[j]).calc != c || hits[j].group != g,
    ensures
        deliveries_upto(world, hits, w, c, g, sub, n) == (if exists|i: int|
            0 <= i < n && delivers(world, #[trigger] hits[i], w, c, g, sub) {
            1nat
        } else {
            0nat
        }),
    decreases n,
{
    if n > 0 {
        lemma_deliveries_once(world, hits, w, c, g, sub, n - 1);
        if delivers(world, hits[n - 1], w, c, g, sub) {
            if exists|i: int| 0 <= i < n - 1 && delivers(world, #[trigger] hits[i], w, c, g, sub) {
                let i = choose|i: int|
                    0 <= i < n - 1 && delivers(world, #[trigger] hits[i], w, c, g, sub);
                assert(hits[n - 1].calc != c || hits[n - 1].group != g);
            }
        }
    }
}

/// Subscriptions of one subscriber deliver once where the group is among them.
proof fn lemma_deliveries_subs(
    world: World,
    subs: Seq<(CalcId, u32)>,
    s: InstanceId,
    w: WriteModel,
    c: CalcId,
    g: u32,
    sub: InstanceId,
)
    requires
        subs.no_duplicates(),
        world.store.wf(),
        c.0 < world.infos.len(),
    ensures
        deliveries_upto(world, with_sub(subs, s), w, c, g, sub, subs.len() as int) == (
        if subs.contains((c, g)) && s == sub && world.store.is_alive(sub) && wakes(
            world,
            c,
            sub,
            w,
        ) {
            1nat
        } else {
            0nat
        }),
{
    let hits = with_sub(subs, s);
    assert forall|i: int, j: int|
        0 <= i < j < hits.len() && (#[trigger] hits[i]).calc == c && hits[i].group == g implies (
    #[trigger] hits[j]).calc != c || hits[j].group != g by {
        assert(subs[i] != subs[j]);
    }
    lemma_deliveries_once(world, hits, w, c, g, sub, subs.len() as int);
    let h = Hit { calc: c, group: g, sub: Some(s) };
    lemma_targets(world, h, w, sub);
    if subs.contains((c, g)) {
        let i = choose|i: int| 0 <= i < subs.len() && subs[i] == (c, g);
        assert(hits[i] == h);
    }
    if exists|i: int| 0 <= i < subs.len() && delivers(world, #[trigger] hits[i], w, c, g, sub) {
        let i = choose|i: int|
            0 <= i < subs.len() && delivers(world, #[trigger] hits[i], w, c, g, sub);
        assert(subs[i] == (c, g));
        assert(hits[i] == h);
    }
}

/// The atoms by which the first `n` holders of references to the writer see it.
spec fn by_reference(
    idx: Indexes,
    holders: Seq<(InstanceId, FieldId)>,
    field: FieldId,
    c: CalcId,
    g: u32,
    sub: InstanceId,
    n: int,
) -> Seq<Atom>
    decreases n,
{
    if n <= 0 {
        Seq::empty()
    } else {
        let r = by_reference(idx, holders, field, c, g, sub, n - 1);
        let h = holders[n - 1];
        if h.0 == sub && idx.inst_subs(h.0.ty, h.1, field).contains((c, g)) {
            r.push(Atom::Inst { ref_field: h.1, field })
        } else {
            r
        }
    }
}

proof fn lemma_by_reference(
    world: World,
    holders: Seq<(InstanceId, FieldId)>,
    w: WriteModel,
    c: CalcId,
    g: u32,
    sub: InstanceId,
    n: int,
)
    requires
        0 <= n <= holders.len(),
        holders.no_duplicates(),
        world.store.wf(),
        c.0 < world.infos.len(),
        world.store.is_alive(sub),
        wakes(world, c, sub, w),
        forall|ty: EntityTypeId, r: FieldId, f: FieldId|
            (#[trigger] world.idx.inst_subs(ty, r, f)).no_duplicates(),
    ensures
        ({
            let found = by_reference(world.idx, holders, w.field, c, g, sub, n);
            let hits = world.idx.inst_hits(holders, w.field, n);
            &&& deliveries_upto(world, hits, w, c, g, sub, hits.len() as int) == found.len()
            &&& found.no_duplicates()
            &&& forall|a: Atom| #[trigger]
                found.contains(a) <==> a is Inst && a->field == w.field && exists|k: int|
                    0 <= k < n && #[trigger] holders[k] == (sub, a->ref_field)
                        && world.idx.inst_subs(sub.ty, a->ref_field, w.field).contains((c, g))
        }),
    decreases n,
{
    if n > 0 {
        lemma_by_reference(world, holders, w, c, g, sub, n - 1);
        let h = holders[n - 1];
        let before = by_reference(world.idx, holders, w.field, c, g, sub, n - 1);
        let a = world.idx.inst_hits(holders, w.field, n - 1);
        let subs = world.idx.inst_subs(h.0.ty, h.1, w.field);
        let b = with_sub(subs, h.0);
        lemma_deliveries_concat(world, a, b, w, c, g, sub, b.len() as int);
        lemma_deliveries_subs(world, subs, h.0, w, c, g, sub);
        let found = by_reference(world.idx, holders, w.field, c, g, sub, n);
        let x = Atom::Inst { ref_field: h.1, field: w.field };
        let more = h.0 == sub && subs.contains((c, g));
        if more {
            assert(!before.contains(x)) by {
                if before.contains(x) {
                    let k = choose|k: int|
                        0 <= k < n - 1 && #[trigger] holders[k] == (sub, h.1)
                            && world.idx.inst_subs(sub.ty, h.1, w.field).contains((c, g));
                    assert(holders[k] == holders[n - 1]);
                }
            }
            lemma_push_once(before, x);
        }
        assert forall|y: Atom| #[trigger]
            found.contains(y) <==> y is Inst && y->field == w.field && exists|k: int|
                0 <= k < n && #[trigger] holders[k] == (sub, y->ref_field)
                    && world.idx.inst_subs(sub.ty, y->ref_field, w.field).contains((c, g)) by {
            let here = y is Inst && y->field == w.field && exists|k: int|
                0 <= k < n - 1 && #[trigger] holders[k] == (sub, y->ref_field)
                    && world.idx.inst_subs(sub.ty, y->ref_field, w.field).contains((c, g));
            assert(before.contains(y) <==> here);
            if here {
                let k = choose|k: int|
                    0 <= k < n - 1 && #[trigger] holders[k] == (sub, y->ref_field)
                        && world.idx.inst_subs(sub.ty, y->ref_field, w.field).contains((c, g));
                assert(holders[k] == (sub, y->ref_field));
            }
            if more && y == x {
                assert(holders[n - 1] == (sub, y->ref_field));
            }
        }
    }
}

/// A write is delivered to a subscriber once for each atom of the group by which it sees the
/// write, where its condition holds, and not at all otherwise. A calculation that runs always
/// is not routed to.
pub proof fn law_one_delivery_per_atom<F>(
    rt: Runtime<F>,
    c: CalcId,
    g: u32,
    sub: InstanceId,
    w: WriteModel,
)
    requires
        rt.wf(),
        c.0 < rt.infos@.len(),
        !runs_always(rt.infos@[c.0 as int], rt.clock.ty, rt.clock.f_frame),
        g < watched_groups(rt.infos@[c.0 as int]).len(),
    ensures
        deliveries(rt.world(), c, g, sub, w) == (if rt.store.is_alive(sub) && sub.ty
            == rt.infos@[c.0 as int].ty && holds(
            rt.infos@[c.0 as int].pred.cond,
            env_of(rt.store, sub, w.new, w.old),
        ) {
            seen_by(rt.store, watched_groups(rt.infos@[c.0 as int])[g as int], sub, w).len()
        } else {
            0
        }),
{
    let world = rt.world();
    let idx = world.idx;
    let info = rt.infos@[c.0 as int];
    let group = watched_groups(info)[g as int];
    let hits = idx.hits_of(world.refs, w, world.tys);
    let n = hits.len() as int;
    if rt.store.is_alive(sub) && sub.ty == info.ty && wakes(world, c, sub, w) {
        let own = with_sub(idx.own_subs(w.inst.ty, w.field), w.inst);
        let typed = idx.type_hits(w.inst.ty, w.field, w.new, w.old, world.tys);
        let holders = world.refs.holders_of(w.inst);
        let m = holders.len() as int;
        let inst = idx.inst_hits(holders, w.field, m);
        let k = cell_key(w.inst.ty, w.field);
        lemma_deliveries_concat(world, own + typed, inst, w, c, g, sub, inst.len() as int);
        lemma_deliveries_concat(world, own, typed, w, c, g, sub, typed.len() as int);
        // By itself.
        lemma_deliveries_subs(
            world,
            idx.own_subs(w.inst.ty, w.field),
            w.inst,
            w,
            c,
            g,
            sub,
        );
        let x = Atom::Own(w.field);
        assert(idx.own_subs(w.inst.ty, w.field).contains((c, g)) && w.inst == sub
            <==> group.contains(x) && w.inst == sub) by {
            assert(subscribes(world.infos, c, g, x) <==> group.contains(x));
        }
        let first = if group.contains(x) && w.inst == sub {
            seq![x]
        } else {
            Seq::empty()
        };
        // By its type.
        let y = Atom::Type(w.inst.ty, w.field);
        lemma_typed(rt, c, g, sub, w);
        let second = if group.contains(y) {
            first.push(y)
        } else {
            first
        };
        // By reference.
        assert(holders.no_duplicates());
        lemma_by_reference(world, holders, w, c, g, sub, m);
        let third = by_reference(idx, holders, w.field, c, g, sub, m);
        let found = second + third;
        assert(deliveries(world, c, g, sub, w) == found.len());
        assert forall|a: Atom| #[trigger] third.contains(a) implies a is Inst && group.contains(a)
            && atom_sees(rt.store, a, sub, w) by {
            let q = choose|q: int|
                0 <= q < m && #[trigger] holders[q] == (sub, a->ref_field) && idx.inst_subs(
                    sub.ty,
                    a->ref_field,
                    w.field,
                ).contains((c, g));
            assert(subscribes(world.infos, c, g, Atom::Inst {
                ref_field: a->ref_field,
                field: w.field,
            }));
            let e = Edge { target: w.inst, holder: sub, field: a->ref_field };
            assert(holders.contains((sub, a->ref_field)));
            assert(world.refs.has(e));
        }
        assert forall|a: Atom| #[trigger] found.contains(a) <==> group.contains(a) && atom_sees(
            rt.store,
            a,
            sub,
            w,
        ) by {
            if found.contains(a) {
                let i = choose|i: int| 0 <= i < found.len() && found[i] == a;
                if i < second.len() {
                    assert(second[i] == a);
                } else {
                    assert(third[i - second.len()] == a);
                    assert(third.contains(a));
                }
            }
            if group.contains(a) && atom_sees(rt.store, a, sub, w) {
                match a {
                    Atom::Own(f) => {
                        assert(second[0] == a);
                        assert(found[0] == a);
                    },
                    Atom::Type(t, f) => {
                        assert(second[second.len() - 1] == a);
                        assert(found[second.len() - 1] == a);
                    },
                    Atom::Inst { ref_field, field } => {
                        let e = Edge { target: w.inst, holder: sub, field: ref_field };
                        assert(world.refs.has(e));
                        assert(holders.contains((sub, ref_field)));
                        let q = choose|q: int| 0 <= q < m && holders[q] == (sub, ref_field);
                        assert(subscribes(world.infos, c, g, a));
                        assert(idx.inst_subs(sub.ty, ref_field, field).contains((c, g)));
                        assert(holders[q] == (sub, a->ref_field));
                        assert(third.contains(a));
                        let i = choose|i: int| 0 <= i < third.len() && third[i] == a;
                        assert(found[second.len() + i] == a);
                    },
                }
            }
        }
        assert(found.no_duplicates()) by {
            assert forall|i: int, j: int|
                0 <= i < found.len() && 0 <= j < found.len() && i != j implies found[i]
                != found[j] by {
                if i >= second.len() {
                    assert(third[i - second.len()] == found[i]);
                    assert(third.contains(found[i]));
                }
                if j >= second.len() {
                    assert(third[j - second.len()] == found[j]);
                    assert(third.contains(found[j]));
                }
                if i >= second.len() && j >= second.len() {
                    assert(third[i - second.len()] != third[j - second.len()]);
                }
            }
        }
        crate::runtime::scope::law_distinct(crate::runtime::scope::flattened(info.pred.scope)->0[g as int]);
        lemma_seen_by(rt.store, group, sub, w);
        lemma_same_length(found, seen_by(rt.store, group, sub, w));
    } else {
        lemma_hits_ok(idx, world.infos, world.refs, w, world.tys);
        lemma_no_deliveries(rt, c, g, sub, w, hits, n);
    }
}

/// Where the subscriber cannot be meant, nothing is delivered.
proof fn lemma_no_deliveries<F>(
    rt: Runtime<F>,
    c: CalcId,
    g: u32,
    sub: InstanceId,
    w: WriteModel,
    hits: Seq<Hit>,
    n: int,
)
    requires
        rt.wf(),
        c.0 < rt.infos@.len(),
        0 <= n <= hits.len(),
        forall|i: int| 0 <= i < hits.len() ==> hit_ok(#[trigger] hits[i], rt.infos@),
        !(rt.store.is_alive(sub) && sub.ty == rt.infos@[c.0 as int].ty && wakes(
            rt.world(),
            c,
            sub,
            w,
        )),
    ensures
        deliveries_upto(rt.world(), hits, w, c, g, sub, n) == 0,
    decreases n,
{
    if n > 0 {
        lemma_no_deliveries(rt, c, g, sub, w, hits, n - 1);
        let h = hits[n - 1];
        assert(hit_ok(h, rt.infos@));
        if h.calc == c {
            lemma_targets(rt.world(), h, w, sub);
        }
    }
}

/// The type-wide subscriptions deliver once where the group watches the field.
proof fn lemma_typed<F>(rt: Runtime<F>, c: CalcId, g: u32, sub: InstanceId, w: WriteModel)
    requires
        rt.wf(),
        c.0 < rt.infos@.len(),
        !runs_always(rt.infos@[c.0 as int], rt.clock.ty, rt.clock.f_frame),
        g < watched_groups(rt.infos@[c.0 as int]).len(),
        rt.store.is_alive(sub),
        sub.ty == rt.infos@[c.0 as int].ty,
        wakes(rt.world(), c, sub, w),
    ensures
        ({
            let typed = rt.idx.type_hits(w.inst.ty, w.field, w.new, w.old, rt.tys@);
            deliveries_upto(rt.world(), typed, w, c, g, sub, typed.len() as int) == (
            if watched_groups(rt.infos@[c.0 as int])[g as int].contains(
                Atom::Type(w.inst.ty, w.field),
            ) {
                1nat
            } else {
                0nat
            })
        }),
{
    let world = rt.world();
    let idx = world.idx;
    let info = rt.infos@[c.0 as int];
    let group = watched_groups(info)[g as int];
    let k = cell_key(w.inst.ty, w.field);
    let typed = idx.type_hits(w.inst.ty, w.field, w.new, w.old, world.tys);
    let a = Atom::Type(w.inst.ty, w.field);
    assert forall|i: int, j: int|
        0 <= i < j < typed.len() && (#[trigger] typed[i]).calc == c && typed[i].group == g implies (
    #[trigger] typed[j]).calc != c || typed[j].group != g by {
        assert(at_most_once(idx.hits_in(k, w.new, w.old, world.tys), c, g));
        lemma_one_place(typed, c, g, i, j);
    }
    lemma_deliveries_once(world, typed, w, c, g, sub, typed.len() as int);
    assert(rt.tys@[c.0 as int] == info.ty);
    if exists|i: int|
        0 <= i < typed.len() && delivers(world, #[trigger] typed[i], w, c, g, sub) {
        let i = choose|i: int|
            0 <= i < typed.len() && delivers(world, #[trigger] typed[i], w, c, g, sub);
        let h = typed[i];
        assert(typed.contains(h));
        assert(hits_at(idx, k, w.new, w.old, world.tys, h));
        let (t, f) = choose|t: EntityTypeId, f: FieldId| #[trigger]
            group.contains(Atom::Type(t, f)) && k == cell_key(t, f);
        lemma_cell_key(w.inst.ty, w.field, t, f);
    }
    if group.contains(a) {
        let env = env_of(rt.store, sub, w.new, w.old);
        let h1 = Hit { calc: c, group: g, sub: None };
        let h2 = Hit { calc: c, group: g, sub: Some(sub) };
        assert(subscribes(world.infos, c, g, a));
        assert(covered_at(idx, k, info.pred.cond, c, g));
        assert(holds(info.pred.cond, env) && world.tys[c.0 as int] == env.sub.ty);
        let h = if hits_at(idx, k, env.new, env.old, world.tys, h1) {
            h1
        } else {
            h2
        };
        assert(hits_at(idx, k, w.new, w.old, world.tys, h));
        let i = choose|i: int| 0 <= i < typed.len() && typed[i] == h;
        lemma_targets(world, h, w, sub);
        assert(delivers(world, typed[i], w, c, g, sub));
    }
}

}
