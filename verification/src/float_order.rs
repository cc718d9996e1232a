//! Order and arithmetic: rounding keeps order, and so does scaling by a positive number.
use crate::float64::one;
use crate::float64::round64;
use crate::float64::saturate;
use crate::float64::F64;
use crate::float64::INF;
use crate::float_arith::lemma_units_zero;
use crate::float_grid::grid;
use crate::float_grid::lemma_grid_increases;
use crate::float_grid::nearest;
use crate::float_grid::round_code;
use vstd::prelude::*;

verus! {

/// Code `b` is not below what `num / den` rounds to.
spec fn reached(p: nat, top: int, num: nat, den: nat, b: int) -> bool {
    ||| b >= top
    ||| 2 * num < den * (grid(p, b) + grid(p, b + 1))
    ||| 2 * num == den * (grid(p, b) + grid(p, b + 1)) && b % 2 == 0
}

proof fn lemma_search(p: nat, top: int, num: nat, den: nat, b: int) -> (r: int)
    requires
        0 <= b <= top,
        b > 0 ==> !reached(p, top, num, den, b - 1),
    ensures
        nearest(p, top, num, den, r),
    decreases top - b,
{
    if reached(p, top, num, den, b) {
        b
    } else {
        lemma_search(p, top, num, den, b + 1)
    }
}

/// Every value rounds to some code.
pub proof fn lemma_round_exists(p: nat, top: int, num: nat, den: nat)
    requires
        top >= 0,
    ensures
        nearest(p, top, num, den, round_code(p, top, num, den)),
{
    let r = lemma_search(p, top, num, den, 0);
    assert(nearest(p, top, num, den, r));
}

/// Rounding keeps order.
pub proof fn law_rounding_is_monotone(p: nat, top: int, a: nat, b: nat, den: nat)
    requires
        top >= 0,
        den > 0,
        a <= b,
    ensures
        round_code(p, top, a, den) <= round_code(p, top, b, den),
{
    lemma_round_exists(p, top, a, den);
    lemma_round_exists(p, top, b, den);
    let x = round_code(p, top, a, den);
    let y = round_code(p, top, b, den);
    if x > y {
        let lo = grid(p, y) + grid(p, y + 1);
        let hi = grid(p, x - 1) + grid(p, x);
        if y < x - 1 {
            lemma_grid_increases(p, y, x - 1);
            lemma_grid_increases(p, y + 1, x);
            assert(den * lo < den * hi) by (nonlinear_arith)
                requires
                    den > 0,
                    lo < hi,
            ;
        }
    }
}

/// Comparison is the order of the values: finite numbers compare as the integers that they
/// are multiples of the smallest subnormal by.
pub proof fn law_comparison_is_the_order_of_values(a: F64, b: F64)
    requires
        a.finite(),
        b.finite(),
    ensures
        a.flt(b) <==> a.scaled() < b.scaled(),
        a.feq(b) <==> a.scaled() == b.scaled(),
        a.fle(b) <==> a.scaled() <= b.scaled(),
{
    lemma_units_zero(a);
    lemma_units_zero(b);
    if a.mag() < b.mag() {
        lemma_grid_increases(52, a.mag(), b.mag());
    } else if b.mag() < a.mag() {
        lemma_grid_increases(52, b.mag(), a.mag());
    }
}

/// Larger magnitudes stand for larger values.
proof fn lemma_units_le(a: F64, b: F64)
    requires
        a.mag() <= b.mag(),
    ensures
        a.units() <= b.units(),
{
    if a.mag() < b.mag() {
        lemma_grid_increases(52, a.mag(), b.mag());
    }
}

/// Multiplying by a positive finite number keeps order.
pub proof fn law_scaling_is_monotone(a: F64, b: F64, k: F64)
    requires
        a.finite(),
        b.finite(),
        k.finite(),
        !k.neg_bit(),
        a.fle(b),
    ensures
        a.mul_spec(k).fle(b.mul_spec(k)),
        a.mul_spec(k).neg_bit() == a.neg_bit(),
        b.mul_spec(k).neg_bit() == b.neg_bit(),
{
    vstd::arithmetic::power2::lemma_pow2_pos(1074);
    lemma_product_code(a, k);
    lemma_product_code(b, k);
    let x = round64(a.units() * k.units(), one());
    let y = round64(b.units() * k.units(), one());
    if a.zero() && b.zero() {
        lemma_units_zero(a);
        lemma_units_zero(b);
        crate::float_arith::lemma_round_zero(one());
        assert(a.units() * k.units() == 0 && b.units() * k.units() == 0) by (nonlinear_arith)
            requires
                a.units() == 0,
                b.units() == 0,
        ;
    }
    if a.mag() <= b.mag() {
        lemma_units_le(a, b);
        assert(a.units() * k.units() <= b.units() * k.units()) by (nonlinear_arith)
            requires
                a.units() <= b.units(),
        ;
        law_rounding_is_monotone(
            52,
            INF as int,
            a.units() * k.units(),
            b.units() * k.units(),
            one(),
        );
    }
    if b.mag() <= a.mag() {
        lemma_units_le(b, a);
        assert(b.units() * k.units() <= a.units() * k.units()) by (nonlinear_arith)
            requires
                b.units() <= a.units(),
        ;
        law_rounding_is_monotone(
            52,
            INF as int,
            b.units() * k.units(),
            a.units() * k.units(),
            one(),
        );
    }
}

/// A product of finite numbers has the rounded code, and the sign of its factors.
proof fn lemma_product_code(a: F64, k: F64)
    requires
        a.finite(),
        k.finite(),
        !k.neg_bit(),
    ensures
        0 <= round64(a.units() * k.units(), one()) <= INF,
        a.mul_spec(k).mag() == round64(a.units() * k.units(), one()),
        a.mul_spec(k).neg_bit() == a.neg_bit(),
        !a.mul_spec(k).nan(),
{
    lemma_round_exists(52, INF as int, a.units() * k.units(), one());
}

/// The integer below a number grows with the number.
pub proof fn lemma_floor_monotone(a: F64, b: F64)
    requires
        a.finite(),
        b.finite(),
        a.fle(b),
    ensures
        saturate(a.scaled() / one() as int) <= saturate(b.scaled() / one() as int),
{
    law_comparison_is_the_order_of_values(a, b);
    vstd::arithmetic::power2::lemma_pow2_pos(1074);
    vstd::arithmetic::div_mod::lemma_div_is_ordered(a.scaled(), b.scaled(), one() as int);
}

}
