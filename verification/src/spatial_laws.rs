//! What the queries of a grid find, in terms of where residents stand.
use crate::entity::InstanceId;
use crate::float64::of_int;
use crate::float64::one;
use crate::float64::pack;
use crate::float64::F64;
use crate::float_arith::lemma_units_zero;
use crate::float_laws::apart;
use crate::float_laws::law_differences_are_nearest;
use crate::float_laws::law_integers_are_nearest;
use crate::float_laws::law_products_are_nearest;
use crate::float_laws::law_sums_are_nearest;
use crate::float_laws::small;
use crate::float_order::law_comparison_is_the_order_of_values;
use crate::spatial::axis;
use crate::spatial::axis_held;
use crate::spatial::inst_key;
use crate::spatial::Entry;
use crate::spatial::SpatialGrid;
use crate::spatial_query::candidate;
use crate::spatial_query::inside;
use crate::spatial_query::law_circle_reaches_its_square;
use crate::spatial_query::near;
use vstd::prelude::*;

verus! {

/// The position lies in a closed rectangle where both its numbers lie between the sides.
pub proof fn law_rectangles_hold_what_lies_between(
    e: Entry,
    min_x: F64,
    min_y: F64,
    max_x: F64,
    max_y: F64,
)
    requires
        e.x.finite(),
        e.y.finite(),
        min_x.finite(),
        min_y.finite(),
        max_x.finite(),
        max_y.finite(),
    ensures
        inside(e, min_x, min_y, max_x, max_y) <==> min_x.scaled() <= e.x.scaled()
            <= max_x.scaled() && min_y.scaled() <= e.y.scaled() <= max_y.scaled(),
{
    law_comparison_is_the_order_of_values(min_x, e.x);
    law_comparison_is_the_order_of_values(e.x, max_x);
    law_comparison_is_the_order_of_values(min_y, e.y);
    law_comparison_is_the_order_of_values(e.y, max_y);
}

/// A distance taken from a coordinate does not lead beyond it.
proof fn lemma_square_side(c: F64, r: F64)
    requires
        c.finite(),
        r.finite(),
        r.scaled() >= 0,
        c.sub_spec(r).finite(),
        c.add_spec(r).finite(),
    ensures
        c.sub_spec(r).scaled() <= c.scaled() <= c.add_spec(r).scaled(),
{
    law_differences_are_nearest(c, r, c);
    law_sums_are_nearest(c, r, c);
}

/// A square is no negative number.
proof fn lemma_square(d: F64)
    requires
        d.finite(),
    ensures
        !d.mul_spec(d).nan(),
        !d.mul_spec(d).neg_bit(),
{
    law_products_are_nearest(d, d, d);
}

/// Who stands at the centre is found, whatever the radius.
pub proof fn law_the_centre_is_found(
    grid: SpatialGrid,
    id: InstanceId,
    cx: F64,
    cy: F64,
    radius: F64,
)
    requires
        grid.wf(),
        grid.has(id),
        cx.finite(),
        cy.finite(),
        grid.entry(id).x.scaled() == cx.scaled(),
        grid.entry(id).y.scaled() == cy.scaled(),
        radius.finite(),
        radius.scaled() >= 0,
        cx.sub_spec(radius).finite(),
        cy.sub_spec(radius).finite(),
        cx.add_spec(radius).finite(),
        cy.add_spec(radius).finite(),
    ensures
        near(grid.entry(id), cx, cy, radius.mul_spec(radius)),
        grid.reached(grid.entry(id), cx, cy, radius),
{
    let e = grid.entry(id);
    assert(e.x.finite() && e.y.finite()) by {
        assert(axis(e.x, grid.inv_cell) is Some);
        assert(axis(e.y, grid.inv_cell) is Some);
    }
    lemma_square_side(cx, radius);
    lemma_square_side(cy, radius);
    law_rectangles_hold_what_lies_between(
        e,
        cx.sub_spec(radius),
        cy.sub_spec(radius),
        cx.add_spec(radius),
        cy.add_spec(radius),
    );
    law_circle_reaches_its_square(grid, id, cx, cy, radius);
    let zero = pack(false, 0);
    lemma_units_zero(zero);
    law_differences_are_nearest(e.x, cx, zero);
    law_differences_are_nearest(e.y, cy, zero);
    let dx = e.x.sub_spec(cx);
    let dy = e.y.sub_spec(cy);
    assert(zero.scaled() == 0);
    assert(one() * zero.scaled() == 0) by (nonlinear_arith)
        requires
            zero.scaled() == 0,
    ;
    law_products_are_nearest(dx, dx, zero);
    law_products_are_nearest(dy, dy, zero);
    let p = dx.mul_spec(dx);
    let q = dy.mul_spec(dy);
    law_sums_are_nearest(p, q, zero);
    let d = p.add_spec(q);
    lemma_square(radius);
    let r2 = radius.mul_spec(radius);
    lemma_units_zero(d);
    assert(d.zero());
    assert(d.rank() == 0);
    assert(r2.rank() >= 0);
}

/// Finding goes by the offsets from the centre: residents and centres that are the same way
/// apart give the same answer, wherever they stand.
pub proof fn law_finding_goes_by_offsets(
    e: Entry,
    cx: F64,
    cy: F64,
    f: Entry,
    dx: F64,
    dy: F64,
    r2: F64,
)
    requires
        e.x.finite() && e.y.finite() && cx.finite() && cy.finite(),
        f.x.finite() && f.y.finite() && dx.finite() && dy.finite(),
        e.x.scaled() - cx.scaled() == f.x.scaled() - dx.scaled(),
        e.y.scaled() - cy.scaled() == f.y.scaled() - dy.scaled(),
    ensures
        near(e, cx, cy, r2) == near(f, dx, dy, r2),
{
    lemma_same_square(e.x, cx, f.x, dx);
    lemma_same_square(e.y, cy, f.y, dy);
}

/// The squares of equal differences are equal.
proof fn lemma_same_square(a: F64, b: F64, c: F64, d: F64)
    requires
        a.finite() && b.finite() && c.finite() && d.finite(),
        a.scaled() - b.scaled() == c.scaled() - d.scaled(),
    ensures
        a.sub_spec(b).mul_spec(a.sub_spec(b)) == c.sub_spec(d).mul_spec(c.sub_spec(d)),
{
    let x = a.sub_spec(b);
    let y = c.sub_spec(d);
    let nb = b.neg_spec();
    let nd = d.neg_spec();
    assert(nb.mag() == b.mag() && nd.mag() == d.mag());
    assert(nb.scaled() == -b.scaled() && nd.scaled() == -d.scaled());
    if a.scaled() - b.scaled() == 0 {
        assert(x.mag() == 0 && y.mag() == 0);
        assert(x.units() == y.units());
    } else {
        assert(x == y);
    }
}

/// Who is found stands no further from the centre than the radius on either axis, as far as
/// the squares of both can be told apart.
pub proof fn law_the_found_stand_within(e: Entry, cx: F64, cy: F64, r2: F64)
    requires
        e.x.finite() && e.y.finite() && cx.finite() && cy.finite(),
        e.x.sub_spec(cx).finite(),
        e.y.sub_spec(cy).finite(),
        near(e, cx, cy, r2),
    ensures
        e.x.sub_spec(cx).mul_spec(e.x.sub_spec(cx)).fle(r2),
        e.y.sub_spec(cy).mul_spec(e.y.sub_spec(cy)).fle(r2),
{
    let dx = e.x.sub_spec(cx);
    let dy = e.y.sub_spec(cy);
    let p = dx.mul_spec(dx);
    let q = dy.mul_spec(dy);
    lemma_square(dx);
    lemma_square(dy);
    lemma_sum_not_less(p, q);
    lemma_sum_not_less(q, p);
}

/// The sum of two numbers that are not negative is less than neither.
proof fn lemma_sum_not_less(p: F64, q: F64)
    requires
        !p.nan() && !q.nan(),
        !p.neg_bit() && !q.neg_bit(),
    ensures
        p.fle(p.add_spec(q)),
        q.fle(p.add_spec(q)),
{
    if p.finite() && q.finite() {
        let s = p.add_spec(q);
        law_sums_are_nearest(p, q, p);
        law_sums_are_nearest(p, q, q);
        if s.finite() {
            law_comparison_is_the_order_of_values(p, s);
            law_comparison_is_the_order_of_values(q, s);
        }
    }
}

/// The number is the integer.
pub open spec fn is_whole(x: F64, i: int) -> bool {
    x.finite() && x.scaled() == i * one()
}

/// On whole coordinates the radius query is exact: a resident is found where the square of
/// its distance is at most that of the radius.
pub proof fn law_radius_queries_on_whole_numbers(
    grid: SpatialGrid,
    id: InstanceId,
    cx: F64,
    cy: F64,
    radius: F64,
    x: int,
    y: int,
    a: int,
    b: int,
    r: int,
)
    requires
        grid.wf(),
        grid.has(id),
        is_whole(grid.entry(id).x, x),
        is_whole(grid.entry(id).y, y),
        is_whole(cx, a),
        is_whole(cy, b),
        is_whole(radius, r),
        -0x200_0000 <= x <= 0x200_0000,
        -0x200_0000 <= y <= 0x200_0000,
        -0x200_0000 <= a <= 0x200_0000,
        -0x200_0000 <= b <= 0x200_0000,
        0 <= r <= 0x200_0000,
    ensures
        near(grid.entry(id), cx, cy, radius.mul_spec(radius)) && grid.reached(
            grid.entry(id),
            cx,
            cy,
            radius,
        ) <==> (x - a) * (x - a) + (y - b) * (y - b) <= r * r,
{
    let e = grid.entry(id);
    let dx = e.x.sub_spec(cx);
    let dy = e.y.sub_spec(cy);
    let u = x - a;
    let v = y - b;
    lemma_whole_difference(e.x, cx, x, a);
    lemma_whole_difference(e.y, cy, y, b);
    lemma_whole_square(dx, u);
    lemma_whole_square(dy, v);
    lemma_whole_square(radius, r);
    let p = dx.mul_spec(dx);
    let q = dy.mul_spec(dy);
    let s = p.add_spec(q);
    let r2 = radius.mul_spec(radius);
    lemma_whole_sum(p, q, u * u, v * v);
    law_comparison_is_the_order_of_values(s, r2);
    let o = one() as int;
    vstd::arithmetic::power2::lemma_pow2_pos(1074);
    let m = u * u + v * v;
    assert(m * o <= (r * r) * o <==> m <= r * r) by (nonlinear_arith)
        requires
            o > 0,
    ;
    if m <= r * r {
        lemma_within(u, v, r);
        lemma_within(v, u, r);
        lemma_whole_difference(cx, radius, a, r);
        lemma_whole_difference(cy, radius, b, r);
        lemma_whole_sum(cx, radius, a, r);
        lemma_whole_sum(cy, radius, b, r);
        law_rectangles_hold_what_lies_between(
            e,
            cx.sub_spec(radius),
            cy.sub_spec(radius),
            cx.add_spec(radius),
            cy.add_spec(radius),
        );
        lemma_scale(a - r, x, o);
        lemma_scale(x, a + r, o);
        lemma_scale(b - r, y, o);
        lemma_scale(y, b + r, o);
        law_circle_reaches_its_square(grid, id, cx, cy, radius);
    }
}

proof fn lemma_scale(i: int, j: int, o: int)
    requires
        i <= j,
        o > 0,
    ensures
        i * o <= j * o,
{
    assert(i * o <= j * o) by (nonlinear_arith)
        requires
            i <= j,
            o > 0,
    ;
}

proof fn lemma_within(u: int, v: int, r: int)
    requires
        u * u + v * v <= r * r,
        r >= 0,
    ensures
        -r <= u <= r,
{
    assert(v * v >= 0) by (nonlinear_arith);
    if u > r {
        assert(u * u > r * r) by (nonlinear_arith)
            requires
                u > r,
                r >= 0,
        ;
    }
    if u < -r {
        assert(u * u > r * r) by (nonlinear_arith)
            requires
                u < -r,
                r >= 0,
        ;
    }
}

pub proof fn lemma_whole_difference(x: F64, y: F64, i: int, j: int)
    requires
        is_whole(x, i),
        is_whole(y, j),
        small(i - j),
    ensures
        is_whole(x.sub_spec(y), i - j),
{
    law_integers_are_nearest(i - j, x);
    law_differences_are_nearest(x, y, of_int(i - j));
    assert((i - j) * one() == i * one() - j * one()) by (nonlinear_arith);
}

pub proof fn lemma_whole_sum(x: F64, y: F64, i: int, j: int)
    requires
        is_whole(x, i),
        is_whole(y, j),
        small(i + j),
    ensures
        is_whole(x.add_spec(y), i + j),
{
    law_integers_are_nearest(i + j, x);
    law_sums_are_nearest(x, y, of_int(i + j));
    assert((i + j) * one() == i * one() + j * one()) by (nonlinear_arith);
}

pub proof fn lemma_whole_product(x: F64, y: F64, i: int, j: int)
    requires
        is_whole(x, i),
        is_whole(y, j),
        small(i * j),
    ensures
        is_whole(x.mul_spec(y), i * j),
{
    law_integers_are_nearest(i * j, x);
    law_products_are_nearest(x, y, of_int(i * j));
    let o = one() as int;
    assert((i * o) * (j * o) == o * ((i * j) * o)) by (nonlinear_arith);
}

proof fn lemma_whole_square(x: F64, i: int)
    requires
        is_whole(x, i),
        -0x400_0000 <= i <= 0x400_0000,
    ensures
        is_whole(x.mul_spec(x), i * i),
        0 <= i * i <= 0x10_0000_0000_0000,
{
    assert(0 <= i * i <= 0x400_0000 * 0x400_0000) by (nonlinear_arith)
        requires
            -0x400_0000 <= i <= 0x400_0000,
    ;
    lemma_whole_product(x, x, i, i);
}

/// A coordinate lies in its cell: measured in cells, it is at least the cell's number and
/// less than the next.
pub proof fn law_cells_hold_their_coordinates(v: F64, inv: F64)
    requires
        v.finite(),
        v.mul_spec(inv).finite(),
    ensures
        axis(v, inv) is Some ==> {
            let c = axis(v, inv)->0;
            &&& i32::MIN <= c <= i32::MAX
            &&& c * one() <= v.mul_spec(inv).scaled() < (c + 1) * one()
        },
        i32::MIN * one() <= v.mul_spec(inv).scaled() < (i32::MAX + 1) * one() ==> axis(v, inv)
            is Some,
        axis(v, inv) is Some ==> axis_held(v, inv) == axis(v, inv)->0,
        v.mul_spec(inv).scaled() < i32::MIN * one() ==> axis_held(v, inv) == i32::MIN,
        v.mul_spec(inv).scaled() >= (i32::MAX + 1) * one() ==> axis_held(v, inv) == i32::MAX,
{
    let p = v.mul_spec(inv).scaled();
    let o = one() as int;
    vstd::arithmetic::power2::lemma_pow2_pos(1074);
    vstd::arithmetic::div_mod::lemma_fundamental_div_mod(p, o);
    vstd::arithmetic::div_mod::lemma_mod_bound(p, o);
    let q = p / o;
    assert(q * o <= p < (q + 1) * o) by (nonlinear_arith)
        requires
            p == o * q + p % o,
            0 <= p % o < o,
    ;
    let lo = i32::MIN as int;
    let hi = i32::MAX as int;
    if lo * o <= p < (hi + 1) * o {
        assert(lo <= q <= hi) by (nonlinear_arith)
            requires
                lo * o <= p < (hi + 1) * o,
                q * o <= p < (q + 1) * o,
                o > 0,
        ;
    }
    if p < lo * o {
        assert(q < lo) by (nonlinear_arith)
            requires
                p < lo * o,
                q * o <= p,
                o > 0,
        ;
    }
    if p >= (hi + 1) * o {
        assert(q > hi) by (nonlinear_arith)
            requires
                p >= (hi + 1) * o,
                p < (q + 1) * o,
                o > 0,
        ;
    }
}

/// Candidates are two residents, less than two cells apart on each axis.
pub proof fn law_candidates_are_near(grid: SpatialGrid, p: (InstanceId, InstanceId))
    requires
        grid.wf(),
        candidate(grid, p),
    ensures
        grid.has(p.0),
        grid.has(p.1),
        p.0 != p.1,
        ({
            let e = grid.entry(p.0);
            let f = grid.entry(p.1);
            let k = grid.inv_cell;
            &&& apart(e.x.mul_spec(k).scaled(), f.x.mul_spec(k).scaled()) < 2 * one()
            &&& apart(e.y.mul_spec(k).scaled(), f.y.mul_spec(k).scaled()) < 2 * one()
        }),
{
    let e = grid.entry(p.0);
    let f = grid.entry(p.1);
    assert(axis(e.x, grid.inv_cell) is Some && axis(f.x, grid.inv_cell) is Some);
    assert(axis(e.y, grid.inv_cell) is Some && axis(f.y, grid.inv_cell) is Some);
    lemma_cells_apart(e.x, f.x, grid.inv_cell);
    lemma_cells_apart(e.y, f.y, grid.inv_cell);
}

proof fn lemma_cells_apart(a: F64, b: F64, inv: F64)
    requires
        axis(a, inv) is Some,
        axis(b, inv) is Some,
        axis(a, inv)->0 - 1 <= axis(b, inv)->0 <= axis(a, inv)->0 + 1,
    ensures
        apart(a.mul_spec(inv).scaled(), b.mul_spec(inv).scaled()) < 2 * one(),
{
    law_cells_hold_their_coordinates(a, inv);
    law_cells_hold_their_coordinates(b, inv);
    let p = a.mul_spec(inv).scaled();
    let q = b.mul_spec(inv).scaled();
    let c = axis(a, inv)->0;
    let d = axis(b, inv)->0;
    let o = one() as int;
    vstd::arithmetic::power2::lemma_pow2_pos(1074);
    assert((c + 1) * o == c * o + o) by (nonlinear_arith);
    assert((d + 1) * o == d * o + o) by (nonlinear_arith);
    assert(c * o - o <= d * o <= c * o + o) by (nonlinear_arith)
        requires
            c - 1 <= d <= c + 1,
            o > 0,
    ;
}

/// Keys go by type, then by id, then by generation.
pub proof fn law_keys_are_in_order(a: InstanceId, b: InstanceId)
    ensures
        inst_key(a) < inst_key(b) <==> a.ty.0 < b.ty.0 || (a.ty == b.ty && (a.id < b.id || (a.id
            == b.id && a.generation < b.generation))),
{
}

}
