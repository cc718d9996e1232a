//! What the camera sees, in terms of where it and the residents stand, and what time does to
//! those that fade.
use crate::entity::InstanceId;
use crate::float64::of_int;
use crate::float64::one;
use crate::float64::pack;
use crate::float64::F64;
use crate::float_arith::lemma_units_zero;
use crate::float_laws::difference_of;
use crate::float_laws::law_arithmetic_is_nearest;
use crate::float_laws::law_differences_are_nearest;
use crate::float_laws::law_quotients_are_nearest;
use crate::float_laws::law_sums_are_nearest;
use crate::float_laws::lemma_zero_and_one;
use crate::float_laws::quotient_of;
use crate::float_order::law_comparison_is_the_order_of_values;
use crate::lists::lemma_first;
use crate::lists::lemma_first_found;
use crate::render::clock::clamped;
use crate::render::clock::elapsed;
use crate::render::fading::doomed;
use crate::render::fading::dying_at;
use crate::render::fading::entry_of;
use crate::render::fading::lesser;
use crate::render::mirror::Mirror;
use crate::render::store::RFieldId;
use crate::render::visible::band;
use crate::render::visible::Axes;
use crate::render::visible::CullShape;
use crate::spatial::SpatialGrid;
use crate::spatial_laws::is_whole;
use crate::spatial_laws::law_radius_queries_on_whole_numbers;
use crate::spatial_laws::law_rectangles_hold_what_lies_between;
use crate::value::Val;
use vstd::prelude::*;

verus! {

/// A shape is one to look through where its sizes are finite and more than nothing.
pub proof fn law_shapes_have_sizes(r: F64, hx: F64, hy: F64)
    ensures
        CullShape::Radius(r).valid() <==> r.finite() && r.scaled() > 0,
        (CullShape::Aabb { hx, hy }).valid() <==> hx.finite() && hx.scaled() > 0 && hy.finite()
            && hy.scaled() > 0,
{
    let z = of_int(0);
    lemma_zero_and_one();
    if r.finite() {
        law_comparison_is_the_order_of_values(z, r);
    }
    if hx.finite() {
        law_comparison_is_the_order_of_values(z, hx);
    }
    if hy.finite() {
        law_comparison_is_the_order_of_values(z, hy);
    }
}

/// Through a rectangle the camera sees the residents that are no further from it, to either
/// side, than half its size, where its sides can be told exactly.
pub proof fn law_rectangles_are_around_the_camera(
    grid: SpatialGrid,
    id: InstanceId,
    cx: F64,
    cy: F64,
    hx: F64,
    hy: F64,
    side: (F64, F64, F64, F64),
)
    requires
        grid.has(id),
        grid.entry(id).x.finite() && grid.entry(id).y.finite(),
        cx.finite() && cy.finite() && hx.finite() && hy.finite(),
        side.0.finite() && side.0.scaled() == cx.scaled() - hx.scaled(),
        side.1.finite() && side.1.scaled() == cy.scaled() - hy.scaled(),
        side.2.finite() && side.2.scaled() == cx.scaled() + hx.scaled(),
        side.3.finite() && side.3.scaled() == cy.scaled() + hy.scaled(),
    ensures
        (CullShape::Aabb { hx, hy }).sees(grid, cx, cy, id) <==> {
            &&& -hx.scaled() <= grid.entry(id).x.scaled() - cx.scaled() <= hx.scaled()
            &&& -hy.scaled() <= grid.entry(id).y.scaled() - cy.scaled() <= hy.scaled()
        },
{
    law_differences_are_nearest(cx, hx, side.0);
    law_differences_are_nearest(cy, hy, side.1);
    law_sums_are_nearest(cx, hx, side.2);
    law_sums_are_nearest(cy, hy, side.3);
    law_rectangles_hold_what_lies_between(
        grid.entry(id),
        cx.sub_spec(hx),
        cy.sub_spec(hy),
        cx.add_spec(hx),
        cy.add_spec(hy),
    );
}

/// Through a circle the camera sees, on whole coordinates, the residents whose distance is at
/// most the radius.
pub proof fn law_circles_are_around_the_camera(
    grid: SpatialGrid,
    id: InstanceId,
    cx: F64,
    cy: F64,
    radius: F64,
    x: int,
    y: int,
    a: int,
    b: int,
    r: int,
)
    requires
        grid.wf(),
        grid.has(id),
        is_whole(grid.entry(id).x, x),
        is_whole(grid.entry(id).y, y),
        is_whole(cx, a),
        is_whole(cy, b),
        is_whole(radius, r),
        -0x200_0000 <= x <= 0x200_0000,
        -0x200_0000 <= y <= 0x200_0000,
        -0x200_0000 <= a <= 0x200_0000,
        -0x200_0000 <= b <= 0x200_0000,
        0 <= r <= 0x200_0000,
    ensures
        CullShape::Radius(radius).sees(grid, cx, cy, id) <==> (x - a) * (x - a) + (y - b) * (y - b)
            <= r * r,
{
    law_radius_queries_on_whole_numbers(grid, id, cx, cy, radius, x, y, a, b, r);
    let z = of_int(0);
    lemma_zero_and_one();
    law_comparison_is_the_order_of_values(radius, z);
    assert(r * one() >= 0) by (nonlinear_arith)
        requires
            r >= 0,
    ;
}

/// Who is not in the grid is not in view.
pub proof fn law_only_residents_are_seen(
    shape: CullShape,
    grid: SpatialGrid,
    cx: F64,
    cy: F64,
    id: InstanceId,
)
    ensures
        shape.sees(grid, cx, cy, id) ==> grid.has(id),
{
}

/// The plane keeps the two components that it is named after, in that order, and no others.
pub proof fn law_planes_keep_their_components(x: F64, y: F64, z: F64, v: Val)
    ensures
        x.finite() && y.finite() ==> Axes::XY.project_spec(Val::Vec3(x, y, z)) == Some((x, y)),
        x.finite() && z.finite() ==> Axes::XZ.project_spec(Val::Vec3(x, y, z)) == Some((x, z)),
        y.finite() && z.finite() ==> Axes::YZ.project_spec(Val::Vec3(x, y, z)) == Some((y, z)),
        !x.finite() ==> Axes::XY.project_spec(Val::Vec3(x, y, z)) is None,
        !x.finite() ==> Axes::XZ.project_spec(Val::Vec3(x, y, z)) is None,
        !y.finite() ==> Axes::XY.project_spec(Val::Vec3(x, y, z)) is None,
        !y.finite() ==> Axes::YZ.project_spec(Val::Vec3(x, y, z)) is None,
        !z.finite() ==> Axes::XZ.project_spec(Val::Vec3(x, y, z)) is None,
        !z.finite() ==> Axes::YZ.project_spec(Val::Vec3(x, y, z)) is None,
        v.get_path(seq!["x"@]).num() == Some(x) && v.get_path(seq!["y"@]).num() == Some(y) && !(
        v is Vec3) && x.finite() && y.finite() ==> Axes::XY.project_spec(v) == Some((x, y)),
        v.get_path(seq!["x"@]).num() == Some(x) && v.get_path(seq!["z"@]).num() == Some(z) && !(
        v is Vec3) && x.finite() && z.finite() ==> Axes::XZ.project_spec(v) == Some((x, z)),
        v.get_path(seq!["y"@]).num() == Some(y) && v.get_path(seq!["z"@]).num() == Some(z) && !(
        v is Vec3) && y.finite() && z.finite() ==> Axes::YZ.project_spec(v) == Some((y, z)),
{
}

/// Time does not run backwards: what passed is never less than nothing, and a finite time
/// that is not negative counts in full.
pub proof fn law_time_runs_forward(dt: F64)
    ensures
        elapsed(dt).finite(),
        elapsed(dt).scaled() >= 0,
        dt.finite() && dt.scaled() >= 0 ==> elapsed(dt) == dt,
        !(dt.finite() && dt.scaled() >= 0) ==> elapsed(dt).scaled() == 0,
{
    let z = of_int(0);
    lemma_zero_and_one();
    if dt.finite() {
        law_comparison_is_the_order_of_values(dt, z);
    }
}

/// Of two times the smaller is taken.
pub proof fn law_the_lesser(a: F64, b: F64)
    requires
        a.finite(),
        b.finite(),
    ensures
        lesser(a, b) == a || lesser(a, b) == b,
        lesser(a, b).scaled() <= a.scaled(),
        lesser(a, b).scaled() <= b.scaled(),
{
    law_comparison_is_the_order_of_values(b, a);
}

/// Who dies fades for at most the given time, and for what was left if that is less. The
/// others fade as before.
pub proof fn law_the_dead_fade(
    dying: Seq<(InstanceId, F64)>,
    inst: InstanceId,
    duration: F64,
    other: InstanceId,
    t: F64,
)
    requires
        forall|i: int, j: int|
            0 <= i < j < dying.len() ==> (#[trigger] dying[i]).0 != (#[trigger] dying[j]).0,
        duration.finite(),
    ensures
        (forall|u: F64| !dying.contains((inst, u))) ==> doomed(dying, inst, duration).contains(
            (inst, duration),
        ),
        forall|u: F64| #[trigger]
            dying.contains((inst, u)) && u.finite() ==> exists|v: F64| #[trigger]
                doomed(dying, inst, duration).contains((inst, v)) && v.scaled() <= u.scaled()
                    && v.scaled() <= duration.scaled() && (v == u || v == duration),
        other != inst ==> (doomed(dying, inst, duration).contains((other, t)) <==> dying.contains(
            (other, t),
        )),
{
    let k = dying_at(dying, inst);
    let d = doomed(dying, inst, duration);
    lemma_first_found(dying, entry_of(inst));
    if k < dying.len() {
        assert(dying.contains((inst, dying[k].1)));
        assert(d[k] == (inst, lesser(dying[k].1, duration)));
    } else {
        assert(d[dying.len() as int] == (inst, duration));
    }
    assert forall|u: F64| #[trigger] dying.contains((inst, u)) && u.finite() implies exists|v: F64|
        #[trigger]
        d.contains((inst, v)) && v.scaled() <= u.scaled() && v.scaled() <= duration.scaled() && (v
            == u || v == duration) by {
        let j = choose|j: int| 0 <= j < dying.len() && dying[j] == (inst, u);
        assert(entry_of(inst)(dying[j]));
        assert(k < dying.len());
        if j != k {
            if j < k {
                assert(dying[j].0 != dying[k].0);
            } else {
                assert(dying[k].0 != dying[j].0);
            }
        }
        law_the_lesser(u, duration);
        assert(d.contains((inst, lesser(u, duration))));
    }
    if other != inst {
        if d.contains((other, t)) {
            let j = choose|j: int| 0 <= j < d.len() && d[j] == (other, t);
            assert(dying[j] == (other, t));
        }
        if dying.contains((other, t)) {
            let j = choose|j: int| 0 <= j < dying.len() && dying[j] == (other, t);
            assert(d[j] == (other, t));
        }
    }
}

/// Who fades has as much less time left as has passed, and is gone once none is left.
pub proof fn law_fading_counts_down(m: Mirror, inst: InstanceId, k: int, dt: F64)
    requires
        m.dying_ok(),
        m.store.present(inst),
        0 <= k < m.dying@.len(),
        m.dying@[k].0 == inst,
        m.dying@[k].1.finite(),
        dt.finite(),
        m.dying@[k].1.sub_spec(dt).finite(),
    ensures
        m.left(inst, dt) is Some,
        difference_of(m.left(inst, dt)->0, m.dying@[k].1, dt),
        m.expired(inst, dt) <==> m.dying@[k].1.scaled() <= dt.scaled(),
{
    let r = m.dying@[k].1;
    assert forall|j: int| 0 <= j < k implies !entry_of(inst)(#[trigger] m.dying@[j]) by {
        assert(m.dying@[j].0 != m.dying@[k].0);
    }
    lemma_first(m.dying@, entry_of(inst), k);
    let z = of_int(0);
    lemma_zero_and_one();
    let l = r.sub_spec(dt);
    law_arithmetic_is_nearest(r, dt);
    law_comparison_is_the_order_of_values(z, l);
    lemma_sign_of_difference(r, dt);
}

/// A difference has the sign of the order.
pub proof fn lemma_sign_of_difference(a: F64, b: F64)
    requires
        a.finite(),
        b.finite(),
        a.sub_spec(b).finite(),
    ensures
        a.sub_spec(b).scaled() > 0 <==> a.scaled() > b.scaled(),
        a.sub_spec(b).scaled() < 0 <==> a.scaled() < b.scaled(),
{
    let d = a.sub_spec(b);
    let z = pack(false, 0);
    lemma_units_zero(z);
    law_differences_are_nearest(a, b, z);
    let s = a.scaled() - b.scaled();
    let u = pack(s < 0, 1);
    lemma_least();
    law_differences_are_nearest(a, b, u);
}

/// The least positive number is one unit.
proof fn lemma_least()
    ensures
        pack(false, 1).finite(),
        pack(true, 1).finite(),
        pack(false, 1).scaled() == 1,
        pack(true, 1).scaled() == -1,
{
    vstd::arithmetic::power2::lemma2_to64();
    vstd::arithmetic::power2::lemma2_to64_rest();
    crate::float_grid::lemma_grid_at(52, 0, 1);
}

/// The field of who fades is the part of the time that is left: it lies between zero and one,
/// it is the quotient of what is left and the whole where that does, and the fields that do
/// not fade stay.
pub proof fn law_fading_is_in_proportion(
    m: Mirror,
    inst: InstanceId,
    f: RFieldId,
    dt: F64,
)
    requires
        m.left(inst, dt) is Some,
        !m.expired(inst, dt),
        m.left(inst, dt)->0.finite(),
    ensures
        m.fading(inst.ty) is None ==> m.faded(inst, f, dt) == m.store.value(inst, f),
        m.fading(inst.ty) is Some && m.fading(inst.ty)->0.field != f ==> m.faded(inst, f, dt)
            == m.store.value(inst, f),
        m.fading(inst.ty) is Some && m.fading(inst.ty)->0.field == f
            && m.fading(inst.ty)->0.duration.finite() && m.fading(
            inst.ty,
        )->0.duration.scaled() > 0 ==> {
            let r = m.faded(inst, f, dt);
            let left = m.left(inst, dt)->0;
            let whole = m.fading(inst.ty)->0.duration;
            &&& r is Float
            &&& r->Float_0.finite()
            &&& 0 <= r->Float_0.scaled() <= one()
            &&& left.scaled() >= whole.scaled() ==> r->Float_0.scaled() == one()
            &&& left.scaled() < whole.scaled() ==> quotient_of(r->Float_0, left, whole)
        },
{
    let left = m.left(inst, dt)->0;
    let z = of_int(0);
    let u = of_int(1);
    lemma_zero_and_one();
    law_comparison_is_the_order_of_values(z, left);
    if m.fading(inst.ty) is Some && m.fading(inst.ty)->0.field == f
        && m.fading(inst.ty)->0.duration.finite() && m.fading(inst.ty)->0.duration.scaled() > 0 {
        let whole = m.fading(inst.ty)->0.duration;
        lemma_units_zero(whole);
        lemma_units_zero(left);
        lemma_part(left, whole);
    }
}

/// A part of a whole, held between zero and one.
pub proof fn lemma_part(left: F64, whole: F64)
    requires
        left.finite(),
        whole.finite(),
        left.scaled() > 0,
        whole.scaled() > 0,
    ensures
        ({
            let r = clamped(left.div_spec(whole));
            &&& r.finite()
            &&& 0 <= r.scaled() <= one()
            &&& left.scaled() >= whole.scaled() ==> r.scaled() == one()
            &&& left.scaled() < whole.scaled() ==> quotient_of(r, left, whole)
        }),
{
    let q = left.div_spec(whole);
    let z = of_int(0);
    let u = of_int(1);
    let l = left.scaled();
    let w = whole.scaled();
    let o = one() as int;
    lemma_zero_and_one();
    vstd::arithmetic::power2::lemma_pow2_pos(1074);
    lemma_units_zero(whole);
    lemma_units_zero(left);
    lemma_units_zero(u);
    law_arithmetic_is_nearest(left, whole);
    let top = crate::float64::INF as int;
    let lo = if l < w {
        l * o
    } else {
        w * o
    };
    let hi = if l < w {
        w * o
    } else {
        l * o
    };
    assert(0 <= lo <= hi) by (nonlinear_arith)
        requires
            l > 0,
            w > 0,
            o > 0,
            lo == (if l < w {
                l * o
            } else {
                w * o
            }),
            hi == (if l < w {
                w * o
            } else {
                l * o
            }),
    ;
    crate::float_order::law_rounding_is_monotone(52, top, lo as nat, hi as nat, w as nat);
    crate::float_grid::lemma_round_exact(52, top, whole.units(), u.mag());
    assert(u.units() * whole.units() == w * o) by (nonlinear_arith)
        requires
            u.units() == o,
            whole.units() == w,
    ;
    assert(left.units() * one() == l * o);
    law_quotients_are_nearest(left, whole, z);
    assert(!q.neg_bit());
    crate::float_order::lemma_round_exists(52, top, (l * o) as nat, w as nat);
    assert(q.mag() == crate::float_grid::round_code(52, top, (l * o) as nat, w as nat));
    if l < w {
        assert(q.mag() <= u.mag());
        if q.mag() < u.mag() {
            crate::float_grid::lemma_grid_increases(52, q.mag(), u.mag());
        }
        law_comparison_is_the_order_of_values(q, z);
        law_comparison_is_the_order_of_values(u, q);
    } else {
        assert(q.mag() >= u.mag());
        if q.finite() {
            if q.mag() > u.mag() {
                crate::float_grid::lemma_grid_increases(52, u.mag(), q.mag());
            }
            law_comparison_is_the_order_of_values(q, z);
            law_comparison_is_the_order_of_values(u, q);
        } else {
            assert(u.flt(q));
            assert(!q.flt(z));
        }
    }
}

/// After some time those fade on that faded before, are there, and have time left: as much
/// less as has passed.
pub proof fn law_who_fades_on(before: Mirror, after: Mirror, dt: F64, inst: InstanceId, r: F64)
    requires
        after.after_fading(before, dt),
    ensures
        after.dying@.contains((inst, r)) <==> exists|u: F64| #[trigger]
            before.dying@.contains((inst, u)) && before.store.present(inst) && r == u.sub_spec(dt)
                && of_int(0).flt(r),
{
    lemma_still(before, dt, before.dying@.len() as int, inst, r);
    assert(before.dying@.take(before.dying@.len() as int) =~= before.dying@);
}

proof fn lemma_still(m: Mirror, dt: F64, n: int, inst: InstanceId, r: F64)
    requires
        0 <= n <= m.dying@.len(),
    ensures
        m.still_dying(dt, n).contains((inst, r)) <==> exists|u: F64| #[trigger]
            m.dying@.take(n).contains((inst, u)) && m.store.present(inst) && r == u.sub_spec(dt)
                && of_int(0).flt(r),
    decreases n,
{
    if n > 0 {
        lemma_still(m, dt, n - 1, inst, r);
        let s = m.still_dying(dt, n - 1);
        let t = m.still_dying(dt, n);
        let (i, u) = m.dying@[n - 1];
        assert(m.dying@.take(n) =~= m.dying@.take(n - 1).push((i, u)));
        assert forall|x: F64| #[trigger] m.dying@.take(n).contains((inst, x)) <==> m.dying@.take(
            n - 1,
        ).contains((inst, x)) || (inst, x) == (i, u) by {
            lemma_pushed(m.dying@.take(n - 1), (i, u), (inst, x));
        }
        if t != s {
            lemma_pushed(s, (i, u.sub_spec(dt)), (inst, r));
        }
        if inst == i {
            assert(m.dying@.take(n).contains((inst, u)));
        }
        if exists|x: F64| #[trigger]
            m.dying@.take(n - 1).contains((inst, x)) && m.store.present(inst) && r == x.sub_spec(dt)
                && of_int(0).flt(r) {
            let x = choose|x: F64| #[trigger]
                m.dying@.take(n - 1).contains((inst, x)) && m.store.present(inst) && r
                    == x.sub_spec(dt) && of_int(0).flt(r);
            assert(m.dying@.take(n).contains((inst, x)));
            assert(s.contains((inst, r)));
        }
        if exists|x: F64| #[trigger]
            m.dying@.take(n).contains((inst, x)) && m.store.present(inst) && r == x.sub_spec(dt)
                && of_int(0).flt(r) {
            let x = choose|x: F64| #[trigger]
                m.dying@.take(n).contains((inst, x)) && m.store.present(inst) && r == x.sub_spec(dt)
                    && of_int(0).flt(r);
            if (inst, x) != (i, u) {
                assert(m.dying@.take(n - 1).contains((inst, x)));
                assert(s.contains((inst, r)));
            } else {
                assert(t == s.push((i, u.sub_spec(dt))));
                lemma_pushed(s, (i, u.sub_spec(dt)), (inst, r));
            }
        }
        if t.contains((inst, r)) && !s.contains((inst, r)) {
            assert((inst, r) == (i, u.sub_spec(dt)));
            assert(m.dying@.take(n).contains((inst, u)));
        }
    } else {
        assert(m.dying@.take(n) =~= Seq::<(InstanceId, F64)>::empty());
        assert(m.still_dying(dt, n) =~= Seq::<(InstanceId, F64)>::empty());
    }
}

/// What a longer list holds.
proof fn lemma_pushed(s: Seq<(InstanceId, F64)>, e: (InstanceId, F64), x: (InstanceId, F64))
    ensures
        s.push(e).contains(x) <==> s.contains(x) || x == e,
{
    let t = s.push(e);
    assert(t[s.len() as int] == e);
    if s.contains(x) {
        let j = choose|j: int| 0 <= j < s.len() && s[j] == x;
        assert(t[j] == x);
    }
}

/// When deaths come, the dead that are there and are of a kind that fades begin to fade, if
/// they did not fade already, and nobody else does.
pub proof fn law_who_begins_to_fade(
    before: Mirror,
    after: Mirror,
    deaths: Seq<InstanceId>,
    inst: InstanceId,
)
    requires
        before.dying_ok(),
        after.after_deaths(before, deaths),
    ensures
        (exists|u: F64| #[trigger] after.dying@.contains((inst, u))) <==> (exists|u: F64|
            #[trigger]
            before.dying@.contains((inst, u))) || (deaths.contains(inst) && before.store.present(
            inst,
        ) && exists|k: int| 0 <= k < before.fades@.len() && (#[trigger] before.fades@[k]).ty
            == inst.ty),
        after.store.present(inst) <==> before.store.present(inst) && !(deaths.contains(inst)
            && forall|k: int|
            0 <= k < before.fades@.len() ==> (#[trigger] before.fades@[k]).ty != inst.ty),
{
    lemma_begins(before, deaths, deaths.len() as int, inst);
    assert(deaths.take(deaths.len() as int) =~= deaths);
    lemma_first_found(before.fades@, |f: crate::render::mirror::Fade| f.ty == inst.ty);
    lemma_fading(before, inst);
}

proof fn lemma_fading(m: Mirror, inst: InstanceId)
    ensures
        m.fading(inst.ty) is Some <==> exists|k: int|
            0 <= k < m.fades@.len() && (#[trigger] m.fades@[k]).ty == inst.ty,
{
    let p = |f: crate::render::mirror::Fade| f.ty == inst.ty;
    lemma_first_found(m.fades@, p);
    if m.fading(inst.ty) is None {
        assert forall|k: int| 0 <= k < m.fades@.len() implies (#[trigger] m.fades@[k]).ty
            != inst.ty by {
            assert(!p(m.fades@[k]));
        }
    }
}

proof fn lemma_begins(m: Mirror, deaths: Seq<InstanceId>, n: int, inst: InstanceId)
    requires
        0 <= n <= deaths.len(),
        m.dying_ok(),
    ensures
        (exists|u: F64| #[trigger] m.dying_after(deaths, n).contains((inst, u))) <==> (exists|
            u: F64,
        | #[trigger]
            m.dying@.contains((inst, u))) || (deaths.take(n).contains(inst) && m.store.present(inst)
            && m.fading(inst.ty) is Some),
        forall|i: int, j: int|
            0 <= i < j < m.dying_after(deaths, n).len() ==> (#[trigger] m.dying_after(
                deaths,
                n,
            )[i]).0 != (#[trigger] m.dying_after(deaths, n)[j]).0,
    decreases n,
{
    if n > 0 {
        lemma_begins(m, deaths, n - 1, inst);
        let s = m.dying_after(deaths, n - 1);
        let t = m.dying_after(deaths, n);
        let d = deaths[n - 1];
        let before = deaths.take(n - 1);
        let now = deaths.take(n);
        assert(now =~= before.push(d));
        assert(now[n - 1] == d);
        if before.contains(inst) {
            let j = choose|j: int| 0 <= j < before.len() && before[j] == inst;
            assert(now[j] == inst);
        }
        if now.contains(inst) && inst != d {
            let j = choose|j: int| 0 <= j < now.len() && now[j] == inst;
            assert(before[j] == inst);
        }
        if m.fading(d.ty) is Some && m.store.present(d) {
            let w = m.fading(d.ty)->0.duration;
            let k = dying_at(s, d);
            lemma_first_found(s, entry_of(d));
            if k < s.len() {
                assert(t =~= s.update(k, (d, lesser(s[k].1, w))));
                assert(t[k].0 == d);
                assert(t.contains((d, t[k].1)));
                assert(s.contains((d, s[k].1)));
            } else {
                assert(t =~= s.push((d, w)));
                assert(t[s.len() as int] == (d, w));
                assert(t.contains((d, w)));
                assert forall|i: int| 0 <= i < s.len() implies (#[trigger] s[i]).0 != d by {
                    assert(!entry_of(d)(s[i]));
                }
            }
            if inst != d {
                assert forall|u: F64| #[trigger] t.contains((inst, u)) <==> s.contains(
                    (inst, u),
                ) by {
                    if t.contains((inst, u)) {
                        let j = choose|j: int| 0 <= j < t.len() && t[j] == (inst, u);
                        assert(s[j] == (inst, u));
                    }
                    if s.contains((inst, u)) {
                        let j = choose|j: int| 0 <= j < s.len() && s[j] == (inst, u);
                        assert(t[j] == (inst, u));
                    }
                }
            }
            assert forall|i: int, j: int| 0 <= i < j < t.len() implies (#[trigger] t[i]).0 != (
            #[trigger] t[j]).0 by {
                if j < s.len() {
                    assert(s[i].0 != s[j].0);
                }
            }
            if inst != d {
                if exists|u: F64| #[trigger] s.contains((inst, u)) {
                    let u = choose|u: F64| #[trigger] s.contains((inst, u));
                    assert(t.contains((inst, u)));
                }
                if exists|u: F64| #[trigger] t.contains((inst, u)) {
                    let u = choose|u: F64| #[trigger] t.contains((inst, u));
                    assert(s.contains((inst, u)));
                }
            }
        } else {
            assert(t == s);
        }
    } else {
        assert(m.dying_after(deaths, n) == m.dying@);
        assert(deaths.take(0) =~= Seq::<InstanceId>::empty());
    }
}

/// A distance has the level of the first threshold beyond it: the thresholds before are not
/// beyond it, and without one beyond it the level is the last.
pub proof fn law_levels_of_detail(dist: F64, thresholds: Seq<F64>, i: int)
    requires
        dist.finite(),
        0 <= i < thresholds.len(),
        thresholds[i].finite(),
    ensures
        0 <= band(dist, thresholds) <= thresholds.len(),
        i < band(dist, thresholds) ==> thresholds[i].scaled() <= dist.scaled(),
        i == band(dist, thresholds) ==> dist.scaled() < thresholds[i].scaled(),
{
    lemma_first_found(thresholds, |t: F64| dist.flt(t));
    law_comparison_is_the_order_of_values(dist, thresholds[i]);
}

}
