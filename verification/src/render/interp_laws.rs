//! What interpolation gives: where it starts, where it ends, and how it gets there.
use crate::float64::of_int;
use crate::float64::one;
use crate::float64::pack;
use crate::float64::F64;
use crate::float_arith::lemma_units_zero;
use crate::float_laws::difference_of;
use crate::float_laws::law_arithmetic_is_nearest;
use crate::float_laws::law_differences_are_nearest;
use crate::float_laws::law_integers_are_nearest;
use crate::float_laws::law_one_is_neutral;
use crate::float_laws::law_products_are_nearest;
use crate::float_laws::law_roots_are_nearest;
use crate::float_laws::law_sums_are_nearest;
use crate::float_laws::law_sums_keep_order;
use crate::float_laws::product_of;
use crate::float_laws::quotient_of;
use crate::float_laws::sum_of;
use crate::float_order::law_comparison_is_the_order_of_values;
use crate::render::clock::unit;
use crate::render::interp::cosine;
use crate::render::interp::line;
use crate::render::interp::on_arc;
use crate::render::interp::turn_of;
use crate::render::interp::Elementary;
use crate::render::interp::Interp;
use crate::render::interp::Quat;
use crate::value::Val;
use vstd::prelude::*;

verus! {

/// Where a frame stands is held from zero to one: a number between them stays, one beyond
/// them becomes the nearer end, and what is not finite becomes zero.
pub proof fn law_alpha_is_held(x: F64)
    ensures
        unit(x).finite(),
        0 <= unit(x).scaled() <= one(),
        x.finite() && 0 <= x.scaled() <= one() ==> unit(x) == x,
        x.finite() && x.scaled() < 0 ==> unit(x).scaled() == 0,
        x.finite() && x.scaled() > one() ==> unit(x).scaled() == one(),
        !x.finite() ==> unit(x).scaled() == 0,
{
    law_integers_are_nearest(0, x0());
    law_integers_are_nearest(1, x0());
    assert(0 * one() == 0);
    assert(1 * one() == one());
    vstd::arithmetic::power2::lemma_pow2_pos(1074);
    if x.finite() {
        law_comparison_is_the_order_of_values(x, of_int(0));
        law_comparison_is_the_order_of_values(of_int(1), x);
    }
}

spec fn x0() -> F64 {
    F64 { bits: 0 }
}

/// A zero times a finite number is zero, and adds nothing.
proof fn lemma_zero(z: F64, a: F64)
    requires
        z.finite(),
        z.scaled() == 0,
        a.finite(),
    ensures
        z.zero(),
        z.mul_spec(a).finite(),
        z.mul_spec(a).scaled() == 0,
        z.mul_spec(a).zero(),
        a.mul_spec(z).finite(),
        a.mul_spec(z).scaled() == 0,
        a.add_spec(z).finite(),
        a.add_spec(z).scaled() == a.scaled(),
        z.add_spec(a).finite(),
        z.add_spec(a).scaled() == a.scaled(),
{
    lemma_units_zero(z);
    assert(z.scaled() * a.scaled() == 0) by (nonlinear_arith)
        requires
            z.scaled() == 0,
    ;
    assert(a.scaled() * z.scaled() == 0) by (nonlinear_arith)
        requires
            z.scaled() == 0,
    ;
    assert(one() * z.scaled() == 0) by (nonlinear_arith)
        requires
            z.scaled() == 0,
    ;
    law_products_are_nearest(z, a, z);
    law_products_are_nearest(a, z, z);
    law_sums_are_nearest(a, z, a);
    law_sums_are_nearest(z, a, a);
    lemma_units_zero(z.mul_spec(a));
}

/// A line starts at its first end, and ends at its second where the way between them can be
/// told exactly. Between equal ends it stays.
pub proof fn law_lines_join_their_ends(p: F64, c: F64, t: F64, way: F64)
    requires
        p.finite() && c.finite() && t.finite(),
        c.sub_spec(p).finite(),
    ensures
        t.scaled() == 0 ==> line(p, c, t).finite() && line(p, c, t).scaled() == p.scaled(),
        p.scaled() == c.scaled() ==> line(p, c, t).finite() && line(p, c, t).scaled()
            == p.scaled(),
        t.scaled() == one() && way.finite() && way.scaled() == c.scaled() - p.scaled() ==> line(
            p,
            c,
            t,
        ).finite() && line(p, c, t).scaled() == c.scaled(),
{
    let d = c.sub_spec(p);
    if t.scaled() == 0 {
        lemma_zero(t, d);
        lemma_zero(d.mul_spec(t), p);
    }
    if p.scaled() == c.scaled() {
        let z = pack(false, 0);
        lemma_units_zero(z);
        law_differences_are_nearest(c, p, z);
        lemma_zero(d, t);
        lemma_zero(d.mul_spec(t), p);
    }
    if t.scaled() == one() && way.finite() && way.scaled() == c.scaled() - p.scaled() {
        law_differences_are_nearest(c, p, way);
        assert(d.scaled() * t.scaled() == one() * d.scaled()) by (nonlinear_arith)
            requires
                t.scaled() == one(),
        ;
        law_products_are_nearest(d, t, d);
        law_sums_are_nearest(p, d.mul_spec(t), c);
    }
}

/// Where everything can be told exactly, a point on a line is the first end and the given
/// part of the way.
pub proof fn law_lines_are_exact_where_they_can_be(
    p: F64,
    c: F64,
    t: F64,
    way: F64,
    part: F64,
    r: F64,
)
    requires
        p.finite() && c.finite() && t.finite() && way.finite() && part.finite() && r.finite(),
        way.scaled() == c.scaled() - p.scaled(),
        one() * part.scaled() == way.scaled() * t.scaled(),
        r.scaled() == p.scaled() + part.scaled(),
    ensures
        line(p, c, t).finite(),
        line(p, c, t).scaled() == r.scaled(),
{
    law_differences_are_nearest(c, p, way);
    law_products_are_nearest(c.sub_spec(p), t, part);
    law_sums_are_nearest(p, c.sub_spec(p).mul_spec(t), r);
}

/// A line goes from its first end towards its second: a later point is further along, and no
/// point lies before the start.
pub proof fn law_lines_go_forward(p: F64, c: F64, t: F64, u: F64)
    requires
        p.finite() && c.finite() && t.finite() && u.finite(),
        0 <= t.scaled() <= u.scaled(),
        !t.neg_bit() && !u.neg_bit(),
        c.sub_spec(p).finite(),
        c.sub_spec(p).mul_spec(t).finite(),
        c.sub_spec(p).mul_spec(u).finite(),
        line(p, c, t).finite(),
        line(p, c, u).finite(),
    ensures
        p.scaled() <= c.scaled() ==> p.scaled() <= line(p, c, t).scaled() <= line(
            p,
            c,
            u,
        ).scaled(),
        c.scaled() <= p.scaled() ==> line(p, c, u).scaled() <= line(p, c, t).scaled()
            <= p.scaled(),
{
    let d = c.sub_spec(p);
    let a = d.mul_spec(t);
    let b = d.mul_spec(u);
    let z = pack(false, 0);
    lemma_units_zero(z);
    law_differences_are_nearest(c, p, z);
    law_comparison_is_the_order_of_values(t, u);
    lemma_scaled_products(d, t, u);
    lemma_zero(z, p);
    let zero = p.add_spec(z);
    if p.scaled() <= c.scaled() {
        law_sums_keep_order(p, z, a);
        law_sums_keep_order(p, a, b);
    }
    if c.scaled() <= p.scaled() {
        law_sums_keep_order(p, a, z);
        law_sums_keep_order(p, b, a);
    }
}

/// Products with factors in order are in order.
proof fn lemma_scaled_products(d: F64, t: F64, u: F64)
    requires
        d.finite() && t.finite() && u.finite(),
        0 <= t.scaled() <= u.scaled(),
        d.mul_spec(t).finite(),
        d.mul_spec(u).finite(),
    ensures
        d.scaled() >= 0 ==> 0 <= d.mul_spec(t).scaled() <= d.mul_spec(u).scaled(),
        d.scaled() <= 0 ==> d.mul_spec(u).scaled() <= d.mul_spec(t).scaled() <= 0,
{
    let a = d.mul_spec(t);
    let b = d.mul_spec(u);
    let z = pack(false, 0);
    let o = one() as int;
    vstd::arithmetic::power2::lemma_pow2_pos(1074);
    lemma_units_zero(z);
    assert(one() * z.scaled() == 0) by (nonlinear_arith)
        requires
            z.scaled() == 0,
    ;
    law_products_are_nearest(d, t, b);
    law_products_are_nearest(d, u, a);
    law_products_are_nearest(d, t, z);
    law_products_are_nearest(d, u, z);
    let x = d.scaled() * t.scaled();
    let y = d.scaled() * u.scaled();
    let m = a.scaled();
    let n = b.scaled();
    if d.scaled() >= 0 {
        assert(0 <= x <= y) by (nonlinear_arith)
            requires
                d.scaled() >= 0,
                0 <= t.scaled() <= u.scaled(),
                x == d.scaled() * t.scaled(),
                y == d.scaled() * u.scaled(),
        ;
        if m < 0 {
            assert(o * m < 0) by (nonlinear_arith)
                requires
                    m < 0,
                    o > 0,
            ;
        }
        if m > n {
            assert(o * m > o * n) by (nonlinear_arith)
                requires
                    m > n,
                    o > 0,
            ;
            if x == y {
                lemma_equal_products(d, t, u);
            }
        }
    }
    if d.scaled() <= 0 {
        assert(y <= x <= 0) by (nonlinear_arith)
            requires
                d.scaled() <= 0,
                0 <= t.scaled() <= u.scaled(),
                x == d.scaled() * t.scaled(),
                y == d.scaled() * u.scaled(),
        ;
        if m > 0 {
            assert(o * m > 0) by (nonlinear_arith)
                requires
                    m > 0,
                    o > 0,
            ;
        }
        if m < n {
            assert(o * m < o * n) by (nonlinear_arith)
                requires
                    m < n,
                    o > 0,
            ;
            if x == y {
                lemma_equal_products(d, t, u);
            }
        }
    }
}

/// Equal products round to equal numbers.
proof fn lemma_equal_products(d: F64, t: F64, u: F64)
    requires
        d.finite() && t.finite() && u.finite(),
        d.scaled() * t.scaled() == d.scaled() * u.scaled(),
        t.scaled() >= 0,
        u.scaled() >= 0,
        d.mul_spec(t).finite(),
        d.mul_spec(u).finite(),
    ensures
        d.mul_spec(t).scaled() == d.mul_spec(u).scaled(),
{
    if d.scaled() == 0 {
        lemma_zero(d, t);
        lemma_zero(d, u);
    } else {
        assert(t.scaled() == u.scaled()) by (nonlinear_arith)
            requires
                d.scaled() * t.scaled() == d.scaled() * u.scaled(),
                d.scaled() != 0,
        ;
        if t.scaled() == 0 {
            lemma_zero(t, d);
            lemma_zero(u, d);
        } else {
            lemma_units_zero(t);
            lemma_units_zero(u);
            assert(t.units() == u.units());
            assert(t.neg_bit() == u.neg_bit());
        }
    }
}

/// A number that is interpolated starts at the earlier value and ends at the later one, and
/// lies on the line between them; what is taken over is one of the two.
pub proof fn law_samples_of_numbers<S, A, H>(
    prev: Val,
    cur: Val,
    alpha: F64,
    math: Elementary<S, A, H>,
    r: Val,
    way: F64,
) where S: Fn(F64) -> F64, A: Fn(F64) -> F64, H: Fn(F64, F64) -> F64
    requires
        Interp::Lerp.sampled(prev, cur, alpha, math, r),
        prev.num() is Some,
        cur.num() is Some,
        prev.num()->0.finite(),
        cur.num()->0.finite(),
        way.finite(),
        way.scaled() == cur.num()->0.scaled() - prev.num()->0.scaled(),
    ensures
        r is Float,
        alpha.finite() && alpha.scaled() <= 0 ==> r->Float_0.scaled() == prev.num()->0.scaled(),
        alpha.finite() && alpha.scaled() >= one() ==> r->Float_0.scaled()
            == cur.num()->0.scaled(),
{
    let p = prev.num()->0;
    let c = cur.num()->0;
    law_alpha_is_held(alpha);
    law_differences_are_nearest(c, p, way);
    law_lines_join_their_ends(p, c, unit(alpha), way);
    vstd::arithmetic::power2::lemma_pow2_pos(1074);
}

/// A vector is interpolated number by number, each as if it were alone.
pub proof fn law_samples_of_vectors<S, A, H>(
    a: (F64, F64, F64),
    b: (F64, F64, F64),
    alpha: F64,
    math: Elementary<S, A, H>,
    r: Val,
) where S: Fn(F64) -> F64, A: Fn(F64) -> F64, H: Fn(F64, F64) -> F64
    requires
        Interp::Vec3Lerp.sampled(
            Val::Vec3(a.0, a.1, a.2),
            Val::Vec3(b.0, b.1, b.2),
            alpha,
            math,
            r,
        ),
    ensures
        r is Vec3,
        Interp::Lerp.sampled(Val::Float(a.0), Val::Float(b.0), alpha, math, Val::Float(r->Vec3_0)),
        Interp::Lerp.sampled(Val::Float(a.1), Val::Float(b.1), alpha, math, Val::Float(r->Vec3_1)),
        Interp::Lerp.sampled(Val::Float(a.2), Val::Float(b.2), alpha, math, Val::Float(r->Vec3_2)),
{
}

/// A step keeps the earlier value until the frame is over and then takes the later one; a
/// snap takes the later one at once.
pub proof fn law_samples_that_are_taken_over<S, A, H>(
    prev: Val,
    cur: Val,
    alpha: F64,
    math: Elementary<S, A, H>,
    r: Val,
) where S: Fn(F64) -> F64, A: Fn(F64) -> F64, H: Fn(F64, F64) -> F64
    requires
        alpha.finite(),
    ensures
        Interp::Snap.sampled(prev, cur, alpha, math, r) ==> r == cur,
        Interp::Step.sampled(prev, cur, alpha, math, r) && alpha.scaled() < one() ==> r == prev,
        Interp::Step.sampled(prev, cur, alpha, math, r) && alpha.scaled() >= one() ==> r == cur,
{
    law_alpha_is_held(alpha);
    law_integers_are_nearest(1, x0());
    assert(1 * one() == one());
    law_comparison_is_the_order_of_values(unit(alpha), of_int(1));
    vstd::arithmetic::power2::lemma_pow2_pos(1074);
}

/// All numbers of a quaternion are finite.
pub open spec fn all_finite(q: Quat) -> bool {
    q.x.finite() && q.y.finite() && q.z.finite() && q.w.finite()
}

/// Two quaternions have the same numbers.
pub open spec fn agree(p: Quat, q: Quat) -> bool {
    &&& all_finite(p)
    &&& all_finite(q)
    &&& p.x.scaled() == q.x.scaled()
    &&& p.y.scaled() == q.y.scaled()
    &&& p.z.scaled() == q.z.scaled()
    &&& p.w.scaled() == q.w.scaled()
}

/// The product with a direction along one axis is the number on that axis.
pub proof fn law_products_with_axes(q: Quat, e: Quat)
    requires
        all_finite(q),
        all_finite(e),
    ensures
        e.x == of_int(1) && e.y.scaled() == 0 && e.z.scaled() == 0 && e.w.scaled() == 0
            ==> q.dot_spec(e).scaled() == q.x.scaled(),
        e.x.scaled() == 0 && e.y == of_int(1) && e.z.scaled() == 0 && e.w.scaled() == 0
            ==> q.dot_spec(e).scaled() == q.y.scaled(),
        e.x.scaled() == 0 && e.y.scaled() == 0 && e.z == of_int(1) && e.w.scaled() == 0
            ==> q.dot_spec(e).scaled() == q.z.scaled(),
        e.x.scaled() == 0 && e.y.scaled() == 0 && e.z.scaled() == 0 && e.w == of_int(1)
            ==> q.dot_spec(e).scaled() == q.w.scaled(),
{
    law_one_is_neutral(q.x);
    law_one_is_neutral(q.y);
    law_one_is_neutral(q.z);
    law_one_is_neutral(q.w);
    if e.x.scaled() == 0 {
        lemma_zero(e.x, q.x);
    }
    if e.y.scaled() == 0 {
        lemma_zero(e.y, q.y);
    }
    if e.z.scaled() == 0 {
        lemma_zero(e.z, q.z);
    }
    if e.w.scaled() == 0 {
        lemma_zero(e.w, q.w);
    }
    let a = q.x.mul_spec(e.x);
    let b = q.y.mul_spec(e.y);
    let c = q.z.mul_spec(e.z);
    let d = q.w.mul_spec(e.w);
    let s = a.add_spec(b);
    let t = s.add_spec(c);
    if e.x == of_int(1) && e.y.scaled() == 0 && e.z.scaled() == 0 && e.w.scaled() == 0 {
        lemma_zero(b, a);
        lemma_zero(c, s);
        lemma_zero(d, t);
    }
    if e.x.scaled() == 0 && e.y == of_int(1) && e.z.scaled() == 0 && e.w.scaled() == 0 {
        lemma_zero(a, b);
        lemma_zero(c, s);
        lemma_zero(d, t);
    }
    if e.x.scaled() == 0 && e.y.scaled() == 0 && e.z == of_int(1) && e.w.scaled() == 0 {
        lemma_zero(a, b);
        lemma_zero(s, c);
        lemma_zero(d, t);
    }
    if e.x.scaled() == 0 && e.y.scaled() == 0 && e.z.scaled() == 0 && e.w == of_int(1) {
        lemma_zero(a, b);
        lemma_zero(s, c);
        lemma_zero(t, d);
    }
}

/// The direction of a quaternion: each number is divided by the length, which is the root of
/// the product of the quaternion with itself. A quaternion of length one is its own direction.
pub proof fn law_directions(p: Quat)
    requires
        all_finite(p),
    ensures
        p.dot_spec(p).finite() && p.normalized() is Some && p.dot_spec(p).sqrt_spec().finite()
            && p.dot_spec(p).sqrt_spec().scaled() > 0 && all_finite(p.normalized()->0) ==> {
            let q = p.normalized()->0;
            let len = p.dot_spec(p).sqrt_spec();
            &&& quotient_of(q.x, p.x, len)
            &&& quotient_of(q.y, p.y, len)
            &&& quotient_of(q.z, p.z, len)
            &&& quotient_of(q.w, p.w, len)
        },
        p.dot_spec(p).finite() && p.dot_spec(p).scaled() == one() ==> p.normalized() is Some
            && agree(p.normalized()->0, p),
{
    let d = p.dot_spec(p);
    let len = d.sqrt_spec();
    if d.finite() && len.finite() && len.scaled() > 0 {
        lemma_units_zero(len);
        law_arithmetic_is_nearest(p.x, len);
        law_arithmetic_is_nearest(p.y, len);
        law_arithmetic_is_nearest(p.z, len);
        law_arithmetic_is_nearest(p.w, len);
    }
    if d.finite() && d.scaled() == one() {
        let u = of_int(1);
        law_integers_are_nearest(1, x0());
        assert(1 * one() == one());
        law_roots_are_nearest(d, u);
        vstd::arithmetic::power2::lemma_pow2_pos(1074);
        lemma_units_zero(len);
        assert(!len.neg_bit());
        lemma_same_units(len, u);
        assert(len == u);
        law_one_is_neutral(p.x);
        law_one_is_neutral(p.y);
        law_one_is_neutral(p.z);
        law_one_is_neutral(p.w);
        let tiny = F64 { bits: crate::render::interp::TINY_BITS };
        assert(tiny.mag() < u.mag()) by {
            lemma_one_code();
        }
    }
}

/// Numbers with equal magnitudes have equal codes.
proof fn lemma_same_units(a: F64, b: F64)
    requires
        a.units() == b.units(),
        a.neg_bit() == b.neg_bit(),
    ensures
        a == b,
{
    if a.mag() < b.mag() {
        crate::float_grid::lemma_grid_increases(52, a.mag(), b.mag());
    } else if b.mag() < a.mag() {
        crate::float_grid::lemma_grid_increases(52, b.mag(), a.mag());
    }
}

/// The code of one.
proof fn lemma_one_code()
    ensures
        of_int(1).mag() == 0x3FF0_0000_0000_0000,
{
    vstd::arithmetic::power2::lemma2_to64_rest();
    vstd::arithmetic::power2::lemma_pow2_adds(52, 1022);
    let c = F64 { bits: 0x3FF0_0000_0000_0000 };
    crate::float_grid::lemma_grid_at(52, 1022, pow2_52());
    assert(1022 * pow2_52() + pow2_52() == 0x3FF0_0000_0000_0000);
    law_integers_are_nearest(1, c);
    assert(1 * one() == one());
    assert(c.units() == one());
    lemma_same_units(c, of_int(1));
}

spec fn pow2_52() -> nat {
    vstd::arithmetic::power2::pow2(52)
}

/// What is asked of the host's functions: the same answer to the same question, the sine of
/// zero is zero, and the angle and its sine are numbers of which the latter is not zero.
pub open spec fn honest<S, A, H>(math: Elementary<S, A, H>, cos: F64) -> bool where
    S: Fn(F64) -> F64,
    A: Fn(F64) -> F64,
    H: Fn(F64, F64) -> F64,
 {
    &&& forall|x: F64, r: F64, s: F64|
        #![trigger math.sin.ensures((x,), r), math.sin.ensures((x,), s)]
        math.sin.ensures((x,), r) && math.sin.ensures((x,), s) ==> r == s
    &&& forall|x: F64, r: F64| #[trigger] math.sin.ensures((x,), r) && x.zero() ==> r.zero()
    &&& forall|theta: F64, r: F64|
        #![trigger math.acos.ensures((cos,), theta), math.sin.ensures((theta,), r)]
        math.acos.ensures((cos,), theta) && math.sin.ensures((theta,), r) ==> theta.finite()
            && r.finite() && !r.zero()
}

/// The end that a rotation turns to by the shorter way.
pub open spec fn near_end(p: Quat, c: Quat) -> Quat {
    if p.dot_spec(c).scaled() < 0 {
        Quat {
            x: c.x.neg_spec(),
            y: c.y.neg_spec(),
            z: c.z.neg_spec(),
            w: c.w.neg_spec(),
        }
    } else {
        c
    }
}

/// A rotation that turns along an arc starts at the first one and ends at the second, by the
/// shorter way.
pub proof fn law_rotations_join_their_ends<S, A, H>(
    math: Elementary<S, A, H>,
    p: Quat,
    c: Quat,
    t: F64,
    q: Quat,
) where S: Fn(F64) -> F64, A: Fn(F64) -> F64, H: Fn(F64, F64) -> F64
    requires
        math.turned(p, c, t, q),
        p.normalized() is Some,
        c.normalized() is Some,
        all_finite(p.normalized()->0),
        all_finite(c.normalized()->0),
        p.normalized()->0.dot_spec(c.normalized()->0).finite(),
        turn_of(p, c, t) is Arc,
        honest(math, cosine(turn_of(p, c, t)->Arc_2)),
        t.finite(),
    ensures
        t.scaled() == 0 ==> agree(q, p.normalized()->0),
        t.scaled() == one() ==> agree(q, near_end(p.normalized()->0, c.normalized()->0)),
{
    let a = p.normalized()->0;
    let b0 = c.normalized()->0;
    let b = turn_of(p, c, t)->Arc_1;
    let dot = turn_of(p, c, t)->Arc_2;
    law_integers_are_nearest(0, x0());
    law_integers_are_nearest(1, x0());
    assert(0 * one() == 0 && 1 * one() == one());
    law_comparison_is_the_order_of_values(a.dot_spec(b0), of_int(0));
    assert(b == near_end(a, b0));
    assert(all_finite(b)) by {
        crate::float_laws::law_signs(b0.x);
        crate::float_laws::law_signs(b0.y);
        crate::float_laws::law_signs(b0.z);
        crate::float_laws::law_signs(b0.w);
    }
    let (theta, whole, left, gone) = choose|theta: F64, whole: F64, left: F64, gone: F64|
        #[trigger] math.arc_by(dot, t, theta, whole, left, gone) && q == on_arc(
            a,
            b,
            whole,
            left,
            gone,
        );
    assert(math.acos.ensures((cosine(dot),), theta) && math.sin.ensures((theta,), whole));
    let u = of_int(1);
    law_one_is_neutral(theta);
    law_one_is_neutral(whole);
    vstd::arithmetic::power2::lemma_pow2_pos(1074);
    if t.scaled() == 0 {
        lemma_zero(t, theta);
        law_differences_are_nearest(u, t, u);
        lemma_units_zero(u.sub_spec(t));
        assert(!u.sub_spec(t).neg_bit());
        lemma_same_units(u.sub_spec(t), u);
        assert(math.sin.ensures((theta,), left));
        assert(left == whole);
        assert(gone.zero());
        lemma_weights(a, b, whole, gone);
    }
    if t.scaled() == one() {
        lemma_units_zero(t);
        lemma_same_units(t, u);
        let z = pack(false, 0);
        lemma_units_zero(z);
        law_differences_are_nearest(u, t, z);
        lemma_zero(u.sub_spec(t), theta);
        assert(math.sin.ensures((theta,), gone));
        assert(gone == whole);
        assert(left.zero());
        lemma_weights_turned(a, b, whole, left);
    }
}

/// Nothing over a number is nothing.
proof fn lemma_none_over(n: F64, whole: F64)
    requires
        n.zero(),
        whole.finite(),
        !whole.zero(),
    ensures
        n.div_spec(whole).finite(),
        n.div_spec(whole).scaled() == 0,
{
    let z = pack(false, 0);
    lemma_units_zero(z);
    lemma_units_zero(n);
    assert(n.scaled() == 0);
    assert(n.scaled() * one() == 0) by (nonlinear_arith)
        requires
            n.scaled() == 0,
    ;
    assert(whole.scaled() * z.scaled() == 0) by (nonlinear_arith)
        requires
            z.scaled() == 0,
    ;
    crate::float_laws::law_quotients_are_nearest(n, whole, z);
}

proof fn lemma_weights(a: Quat, b: Quat, whole: F64, none: F64)
    requires
        all_finite(a),
        all_finite(b),
        whole.finite(),
        !whole.zero(),
        none.zero(),
    ensures
        agree(on_arc(a, b, whole, whole, none), a),
{
    law_one_is_neutral(whole);
    lemma_none_over(none, whole);
    let n = none.div_spec(whole);
    lemma_weight(a.x, b.x, n);
    lemma_weight(a.y, b.y, n);
    lemma_weight(a.z, b.z, n);
    lemma_weight(a.w, b.w, n);
}

proof fn lemma_weight(x: F64, y: F64, n: F64)
    requires
        x.finite(),
        y.finite(),
        n.finite(),
        n.scaled() == 0,
    ensures
        x.mul_spec(of_int(1)).add_spec(y.mul_spec(n)).finite(),
        x.mul_spec(of_int(1)).add_spec(y.mul_spec(n)).scaled() == x.scaled(),
        y.mul_spec(n).add_spec(x.mul_spec(of_int(1))).finite(),
        y.mul_spec(n).add_spec(x.mul_spec(of_int(1))).scaled() == x.scaled(),
{
    law_one_is_neutral(x);
    lemma_zero(n, y);
    lemma_zero(y.mul_spec(n), x);
}

proof fn lemma_weights_turned(a: Quat, b: Quat, whole: F64, none: F64)
    requires
        all_finite(a),
        all_finite(b),
        whole.finite(),
        !whole.zero(),
        none.zero(),
    ensures
        agree(on_arc(a, b, whole, none, whole), b),
{
    law_one_is_neutral(whole);
    lemma_none_over(none, whole);
    let n = none.div_spec(whole);
    lemma_weight(b.x, a.x, n);
    lemma_weight(b.y, a.y, n);
    lemma_weight(b.z, a.z, n);
    lemma_weight(b.w, a.w, n);
}

/// On an arc the first end weighs as much as the sine of what is left of the angle, and the
/// second as much as the sine of what is gone of it, both over the sine of the whole angle.
pub proof fn law_rotations_are_weighted<S, A, H>(
    math: Elementary<S, A, H>,
    p: Quat,
    c: Quat,
    t: F64,
    q: Quat,
)  -> (r: (F64, F64, F64, F64)) where
    S: Fn(F64) -> F64,
    A: Fn(F64) -> F64,
    H: Fn(F64, F64) -> F64,

    requires
        math.turned(p, c, t, q),
        turn_of(p, c, t) is Arc,
        all_finite(turn_of(p, c, t)->Arc_0),
        all_finite(turn_of(p, c, t)->Arc_1),
        t.finite(),
    ensures
        ({
            let (theta, whole, left, gone) = r;
            let a = turn_of(p, c, t)->Arc_0;
            let b = turn_of(p, c, t)->Arc_1;
            let rest = of_int(1).sub_spec(t);
            let s = left.div_spec(whole);
            let g = gone.div_spec(whole);
            &&& math.acos.ensures((cosine(turn_of(p, c, t)->Arc_2),), theta)
            &&& math.sin.ensures((theta,), whole)
            &&& exists|x: F64, y: F64|
                {
                    &&& #[trigger] math.sin.ensures((x,), left)
                    &&& #[trigger] math.sin.ensures((y,), gone)
                    &&& theta.finite() && rest.finite() && x.finite() ==> difference_of(
                        rest,
                        of_int(1),
                        t,
                    ) && product_of(x, rest, theta)
                    &&& theta.finite() && y.finite() ==> product_of(y, t, theta)
                }
            &&& whole.finite() && !whole.zero() && left.finite() && s.finite() ==> quotient_of(
                s,
                left,
                whole,
            )
            &&& whole.finite() && !whole.zero() && gone.finite() && g.finite() ==> quotient_of(
                g,
                gone,
                whole,
            )
            &&& s.finite() && g.finite() ==> {
                &&& is_weighted(q.x, a.x, s, b.x, g)
                &&& is_weighted(q.y, a.y, s, b.y, g)
                &&& is_weighted(q.z, a.z, s, b.z, g)
                &&& is_weighted(q.w, a.w, s, b.w, g)
            }
        }),
{
    let a = turn_of(p, c, t)->Arc_0;
    let b = turn_of(p, c, t)->Arc_1;
    let dot = turn_of(p, c, t)->Arc_2;
    let (theta, whole, left, gone) = choose|theta: F64, whole: F64, left: F64, gone: F64|
        #[trigger] math.arc_by(dot, t, theta, whole, left, gone) && q == on_arc(
            a,
            b,
            whole,
            left,
            gone,
        );
    let u = of_int(1);
    law_integers_are_nearest(1, x0());
    let rest = u.sub_spec(t);
    law_arithmetic_is_nearest(u, t);
    if theta.finite() {
        law_arithmetic_is_nearest(t, theta);
        if rest.finite() {
            law_arithmetic_is_nearest(rest, theta);
        }
    }
    let x = rest.mul_spec(theta);
    let y = t.mul_spec(theta);
    assert(math.sin.ensures((x,), left) && math.sin.ensures((y,), gone));
    if whole.finite() && !whole.zero() && left.finite() {
        law_arithmetic_is_nearest(left, whole);
    }
    if whole.finite() && !whole.zero() && gone.finite() {
        law_arithmetic_is_nearest(gone, whole);
    }
    let s = left.div_spec(whole);
    let g = gone.div_spec(whole);
    if s.finite() && g.finite() {
        lemma_weighted(a.x, s, b.x, g);
        lemma_weighted(a.y, s, b.y, g);
        lemma_weighted(a.z, s, b.z, g);
        lemma_weighted(a.w, s, b.w, g);
    }
    (theta, whole, left, gone)
}

/// `r` is the sum of the products of `a` and `s` and of `b` and `g`, if it is finite.
pub open spec fn is_weighted(r: F64, a: F64, s: F64, b: F64, g: F64) -> bool {
    r.finite() ==> exists|m: F64, n: F64| #[trigger]
        product_of(m, a, s) && #[trigger] product_of(n, b, g) && sum_of(r, m, n)
}

proof fn lemma_weighted(a: F64, s: F64, b: F64, g: F64)
    requires
        a.finite() && s.finite() && b.finite() && g.finite(),
    ensures
        is_weighted(a.mul_spec(s).add_spec(b.mul_spec(g)), a, s, b, g),
{
    let m = a.mul_spec(s);
    let n = b.mul_spec(g);
    law_arithmetic_is_nearest(a, s);
    law_arithmetic_is_nearest(b, g);
    if m.add_spec(n).finite() {
        assert(m.finite() && n.finite());
        law_arithmetic_is_nearest(m, n);
    }
}

/// Rotations that have no direction give way: to the other one, or to no rotation at all.
pub proof fn law_rotations_without_direction<S, A, H>(
    math: Elementary<S, A, H>,
    p: Quat,
    c: Quat,
    t: F64,
    q: Quat,
) where S: Fn(F64) -> F64, A: Fn(F64) -> F64, H: Fn(F64, F64) -> F64
    requires
        math.turned(p, c, t, q),
    ensures
        p.normalized() is None && c.normalized() is Some ==> q == c.normalized()->0,
        p.normalized() is Some && c.normalized() is None ==> q == p.normalized()->0,
        p.normalized() is None && c.normalized() is None ==> q.x.scaled() == 0 && q.y.scaled() == 0
            && q.z.scaled() == 0 && q.w.scaled() == one(),
{
    law_integers_are_nearest(0, x0());
    law_integers_are_nearest(1, x0());
    assert(0 * one() == 0 && 1 * one() == one());
}

/// Directions whose cosine is beyond 0.9995 count as parallel; others are joined by an arc
/// from the first to the nearer end.
pub proof fn law_nearly_parallel_rotations(p: Quat, c: Quat, t: F64)
    requires
        p.normalized() is Some,
        c.normalized() is Some,
        p.normalized()->0.dot_spec(c.normalized()->0).finite(),
    ensures
        ({
            let a = p.normalized()->0;
            let b = near_end(a, c.normalized()->0);
            let dot = a.dot_spec(c.normalized()->0).scaled();
            let cos = if dot < 0 {
                -dot
            } else {
                dot
            };
            &&& cos * 10_000 <= 9_995 * one() ==> turn_of(p, c, t) is Arc
            &&& cos * 10_000_000_000 >= 9_995_000_001 * one() ==> turn_of(p, c, t) is Settled
            &&& turn_of(p, c, t) is Arc ==> turn_of(p, c, t)->Arc_0 == a && turn_of(
                p,
                c,
                t,
            )->Arc_1 == b && turn_of(p, c, t)->Arc_2.scaled() == cos
        }),
{
    let a = p.normalized()->0;
    let b0 = c.normalized()->0;
    let d = a.dot_spec(b0);
    law_integers_are_nearest(0, x0());
    assert(0 * one() == 0);
    law_comparison_is_the_order_of_values(d, of_int(0));
    crate::float_laws::law_signs(d);
    let dot = if d.scaled() < 0 {
        d.neg_spec()
    } else {
        d
    };
    let edge = F64 { bits: crate::render::interp::PARALLEL_BITS };
    lemma_edge();
    law_comparison_is_the_order_of_values(edge, dot);
}

/// Directions that count as parallel are joined by a line from the first to the nearer end,
/// and the direction of the point on it is taken.
pub proof fn law_rotations_along_a_line(p: Quat, c: Quat, t: F64) -> (m: Quat)
    requires
        p.normalized() is Some,
        c.normalized() is Some,
        all_finite(p.normalized()->0),
        all_finite(c.normalized()->0),
        p.normalized()->0.dot_spec(c.normalized()->0).finite(),
        t.finite(),
        turn_of(p, c, t) is Settled,
    ensures
        ({
            let a = p.normalized()->0;
            let b = near_end(a, c.normalized()->0);
            &&& turn_of(p, c, t)->Settled_0 == match m.normalized() {
                Some(q) => q,
                None => Quat::one(),
            }
            &&& on_line(m.x, a.x, b.x, t)
            &&& on_line(m.y, a.y, b.y, t)
            &&& on_line(m.z, a.z, b.z, t)
            &&& on_line(m.w, a.w, b.w, t)
            &&& t.scaled() == 0 && way_is_finite(a, b) ==> agree(m, a)
        }),
{
    let a = p.normalized()->0;
    let b0 = c.normalized()->0;
    let b = near_end(a, b0);
    law_integers_are_nearest(0, x0());
    assert(0 * one() == 0);
    law_comparison_is_the_order_of_values(a.dot_spec(b0), of_int(0));
    crate::float_laws::law_signs(b0.x);
    crate::float_laws::law_signs(b0.y);
    crate::float_laws::law_signs(b0.z);
    crate::float_laws::law_signs(b0.w);
    let m = a.towards_spec(b, t);
    lemma_along(a, b, t);
    m
}

proof fn lemma_along(a: Quat, b: Quat, t: F64)
    requires
        all_finite(a),
        all_finite(b),
        t.finite(),
    ensures
        ({
            let m = a.towards_spec(b, t);
            &&& on_line(m.x, a.x, b.x, t)
            &&& on_line(m.y, a.y, b.y, t)
            &&& on_line(m.z, a.z, b.z, t)
            &&& on_line(m.w, a.w, b.w, t)
            &&& t.scaled() == 0 && way_is_finite(a, b) ==> agree(m, a)
        }),
{
    lemma_on_line(a.x, b.x, t);
    lemma_on_line(a.y, b.y, t);
    lemma_on_line(a.z, b.z, t);
    lemma_on_line(a.w, b.w, t);
    if t.scaled() == 0 && way_is_finite(a, b) {
        law_lines_join_their_ends(a.x, b.x, t, t);
        law_lines_join_their_ends(a.y, b.y, t, t);
        law_lines_join_their_ends(a.z, b.z, t, t);
        law_lines_join_their_ends(a.w, b.w, t, t);
    }
}

/// The ways between the numbers of two quaternions are finite.
pub open spec fn way_is_finite(a: Quat, b: Quat) -> bool {
    b.x.sub_spec(a.x).finite() && b.y.sub_spec(a.y).finite() && b.z.sub_spec(a.z).finite()
        && b.w.sub_spec(a.w).finite()
}

/// `r` is, if it is finite, the sum of `p` and of the part `t` of the way to `c`.
pub open spec fn on_line(r: F64, p: F64, c: F64, t: F64) -> bool {
    r.finite() ==> exists|way: F64, part: F64| #[trigger]
        difference_of(way, c, p) && #[trigger] product_of(part, way, t) && sum_of(r, p, part)
}

/// A point on a line is the sum of the first end and the given part of the way.
pub proof fn lemma_on_line(p: F64, c: F64, t: F64)
    requires
        p.finite() && c.finite() && t.finite(),
    ensures
        on_line(line(p, c, t), p, c, t),
{
    let way = c.sub_spec(p);
    let part = way.mul_spec(t);
    if line(p, c, t).finite() {
        assert(part.finite());
        assert(way.finite());
        law_arithmetic_is_nearest(c, p);
        law_arithmetic_is_nearest(way, t);
        law_arithmetic_is_nearest(p, part);
    }
}

/// Where the edge of being parallel lies.
proof fn lemma_edge()
    ensures
        ({
            let edge = F64 { bits: crate::render::interp::PARALLEL_BITS };
            &&& edge.finite()
            &&& edge.scaled() * 10_000 >= 9_995 * one()
            &&& edge.scaled() * 10_000_000_000 < 9_995_000_001 * one()
        }),
{
    let edge = F64 { bits: crate::render::interp::PARALLEL_BITS };
    vstd::arithmetic::power2::lemma2_to64();
    vstd::arithmetic::power2::lemma2_to64_rest();
    vstd::arithmetic::power2::lemma_pow2_adds(53, 1021);
    vstd::arithmetic::power2::lemma_pow2_pos(1021);
    let k = vstd::arithmetic::power2::pow2(1021) as int;
    assert(9002695655113622 <= 2 * pow2_52());
    crate::float_grid::lemma_grid_at(52, 1021, 9002695655113622);
    assert(edge.mag() == 1021 * pow2_52() + 9002695655113622);
    assert(edge.scaled() == 9002695655113622 * k);
    assert(one() == 9007199254740992 * k);
}

/// A rotation of length one that is interpolated along an arc is, at the start of a frame,
/// the earlier rotation, number by number.
pub proof fn law_samples_of_rotations<S, A, H>(
    a: (F64, F64, F64, F64),
    b: (F64, F64, F64, F64),
    alpha: F64,
    math: Elementary<S, A, H>,
    r: Val,
) where S: Fn(F64) -> F64, A: Fn(F64) -> F64, H: Fn(F64, F64) -> F64
    requires
        ({
            let p = Quat { x: a.0, y: a.1, z: a.2, w: a.3 };
            let c = Quat { x: b.0, y: b.1, z: b.2, w: b.3 };
            let turn = turn_of(p, c, unit(alpha));
            &&& Interp::Slerp.sampled(
                Val::Quat(a.0, a.1, a.2, a.3),
                Val::Quat(b.0, b.1, b.2, b.3),
                alpha,
                math,
                r,
            )
            &&& all_finite(p) && all_finite(c)
            &&& p.dot_spec(p).finite() && p.dot_spec(p).scaled() == one()
            &&& c.dot_spec(c).finite() && c.dot_spec(c).scaled() == one()
            &&& p.normalized()->0.dot_spec(c.normalized()->0).finite()
            &&& p.normalized()->0.dot_spec(c.normalized()->0).scaled() >= 0
            &&& turn is Arc
            &&& honest(math, cosine(turn->Arc_2))
            &&& alpha.finite()
        }),
    ensures
        r is Quat,
        alpha.scaled() <= 0 ==> r->Quat_0.scaled() == a.0.scaled() && r->Quat_1.scaled()
            == a.1.scaled() && r->Quat_2.scaled() == a.2.scaled() && r->Quat_3.scaled()
            == a.3.scaled(),
        alpha.scaled() >= one() ==> r->Quat_0.scaled() == b.0.scaled() && r->Quat_1.scaled()
            == b.1.scaled() && r->Quat_2.scaled() == b.2.scaled() && r->Quat_3.scaled()
            == b.3.scaled(),
{
    let p = Quat { x: a.0, y: a.1, z: a.2, w: a.3 };
    let c = Quat { x: b.0, y: b.1, z: b.2, w: b.3 };
    law_alpha_is_held(alpha);
    law_directions(p);
    law_directions(c);
    vstd::arithmetic::power2::lemma_pow2_pos(1074);
    law_rotations_join_their_ends(math, p, c, unit(alpha), Quat::of(r));
}

/// A quaternion has a direction where its length reaches 1e-12, and none where it is less.
pub proof fn law_which_have_directions(p: Quat)
    requires
        all_finite(p),
        p.dot_spec(p).sqrt_spec().finite(),
    ensures
        p.dot_spec(p).sqrt_spec().scaled() * 1_000_000_000_000 >= one() ==> p.normalized() is Some,
        p.dot_spec(p).sqrt_spec().scaled() * 1_000_000_000_001 < one() ==> p.normalized() is None,
{
    let len = p.dot_spec(p).sqrt_spec();
    let tiny = F64 { bits: crate::render::interp::TINY_BITS };
    vstd::arithmetic::power2::lemma2_to64();
    vstd::arithmetic::power2::lemma2_to64_rest();
    vstd::arithmetic::power2::lemma_pow2_adds(64, 1010);
    vstd::arithmetic::power2::lemma_pow2_adds(28, 982);
    vstd::arithmetic::power2::lemma_pow2_pos(982);
    let k = vstd::arithmetic::power2::pow2(982) as int;
    crate::float_grid::lemma_grid_at(52, 982, 4951760157141521);
    assert(tiny.mag() == 982 * pow2_52() + 4951760157141521);
    assert(tiny.scaled() == 4951760157141521 * k);
    assert(vstd::arithmetic::power2::pow2(1010) == 0x10000000 * k);
    assert(one() == 0x1_0000_0000_0000_0000 * (0x10000000 * k));
    law_comparison_is_the_order_of_values(len, tiny);
}

/// A cosine is held between its least and its greatest value.
pub proof fn law_cosines_are_held(dot: F64)
    requires
        dot.finite(),
    ensures
        cosine(dot).finite(),
        dot.scaled() > one() ==> cosine(dot).scaled() == one(),
        dot.scaled() < -one() ==> cosine(dot).scaled() == -one(),
        -one() <= dot.scaled() <= one() ==> cosine(dot) == dot,
{
    law_integers_are_nearest(1, x0());
    law_integers_are_nearest(-1, x0());
    assert(1 * one() == one() && (-1) * one() == -one()) by (nonlinear_arith);
    vstd::arithmetic::power2::lemma_pow2_pos(1074);
    law_comparison_is_the_order_of_values(of_int(1), dot);
    law_comparison_is_the_order_of_values(dot, of_int(-1));
}

/// Before anything moves, an output holds the default of what it follows, in the kind of value
/// that it will hold: a number, a vector or a rotation, and nothing moved or turned where the
/// default is of another kind.
pub proof fn law_outputs_start_at_the_default(source: Val)
    ensures
        Interp::Snap.out_default_spec(source) == source,
        Interp::Step.out_default_spec(source) == source,
        Interp::Lerp.out_default_spec(source) is Float,
        source.num() is Some ==> Some(Interp::Lerp.out_default_spec(source)->Float_0)
            == source.num(),
        source.num() is None ==> Interp::Lerp.out_default_spec(source)->Float_0.scaled() == 0,
        source is Vec3 ==> Interp::Vec3Lerp.out_default_spec(source) == source,
        !(source is Vec3) ==> {
            let v = Interp::Vec3Lerp.out_default_spec(source);
            &&& v is Vec3
            &&& v->Vec3_0.scaled() == 0 && v->Vec3_1.scaled() == 0 && v->Vec3_2.scaled() == 0
        },
        source is Quat ==> Interp::Slerp.out_default_spec(source) == source,
        !(source is Quat) ==> {
            let v = Interp::Slerp.out_default_spec(source);
            &&& v is Quat
            &&& v->Quat_0.scaled() == 0 && v->Quat_1.scaled() == 0 && v->Quat_2.scaled() == 0
            &&& v->Quat_3.scaled() == one()
        },
{
    crate::float_laws::lemma_zero_and_one();
}

}
