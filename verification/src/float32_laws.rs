//! What the arithmetic of binary32 numbers comes to, in terms of the numbers themselves.
use crate::float32::one32;
use crate::float32::pack32;
use crate::float32::round32;
use crate::float32::F32;
use crate::float32::INF32;
use crate::float64::magnitude;
use crate::float64::one;
use crate::float64::F64;
use crate::float_grid::lemma_grid_at;
use crate::float_grid::lemma_grid_increases;
use crate::float_laws::apart;
use crate::float_laws::lemma_best;
use crate::float_laws::lemma_code_of;
use crate::float_order::lemma_round_exists;
use vstd::arithmetic::power2::lemma_pow2_adds;
use vstd::arithmetic::power2::lemma_pow2_pos;
use vstd::arithmetic::power2::lemma_pow2_unfold;
use vstd::arithmetic::power2::pow2;
use vstd::prelude::*;

verus! {

/// The code of zero is the only one that stands for it.
proof fn lemma_nothing(x: F32)
    ensures
        x.units() == 0 <==> x.zero(),
{
    lemma_pow2_pos(23);
    if x.mag() > 0 {
        lemma_grid_increases(23, 0, x.mag());
    }
}

/// What is rounded is nearest, whatever its sign.
proof fn lemma_signed32(s: int, den: nat, neg: bool, z: F32)
    requires
        den > 0,
        neg ==> s <= 0,
        !neg ==> s >= 0,
        z.finite(),
    ensures
        ({
            let r = pack32(neg, round32(magnitude(s), den));
            &&& r.neg_bit() == neg
            &&& !r.nan()
            &&& r.finite() ==> apart(s, den * r.scaled()) <= apart(s, den * z.scaled())
            &&& s == den * z.scaled() ==> r.finite() && r.scaled() == z.scaled()
        }),
{
    let n = magnitude(s);
    let b = round32(n, den);
    lemma_round_exists(23, INF32 as int, n, den);
    let r = pack32(neg, b);
    lemma_best(23, INF32 as int, n, den, b, z.mag());
    lemma_best(23, INF32 as int, n, den, b, 0);
    lemma_nothing(pack32(false, 0));
    let u = r.units() as int;
    let v = z.units() as int;
    assert(den * 0 == 0);
    assert(den * (-u) == -(den * u)) by (nonlinear_arith);
    assert(den * (-v) == -(den * v)) by (nonlinear_arith);
    assert(den * v >= 0 && den * u >= 0) by (nonlinear_arith)
        requires
            den > 0,
            u >= 0,
            v >= 0,
    ;
    if r.finite() && s == den * z.scaled() {
        assert(den * r.scaled() == den * z.scaled());
        assert(r.scaled() == z.scaled()) by (nonlinear_arith)
            requires
                den > 0,
                den * r.scaled() == den * z.scaled(),
        ;
    }
}

/// A sum is the nearest number to the exact one, and a difference likewise.
pub proof fn law_sums_are_nearest32(a: F32, b: F32, z: F32)
    requires
        a.finite(),
        b.finite(),
        z.finite(),
    ensures
        ({
            let s = a.scaled() + b.scaled();
            let d = a.scaled() - b.scaled();
            let x = a.add_spec(b);
            let y = a.sub_spec(b);
            &&& !x.nan() && !y.nan()
            &&& x.finite() ==> apart(s, x.scaled()) <= apart(s, z.scaled())
            &&& y.finite() ==> apart(d, y.scaled()) <= apart(d, z.scaled())
            &&& s == z.scaled() ==> x.finite() && x.scaled() == s
            &&& d == z.scaled() ==> y.finite() && y.scaled() == d
        }),
{
    let s = a.scaled() + b.scaled();
    let c = b.neg_spec();
    assert(c.mag() == b.mag());
    assert(c.scaled() == -b.scaled());
    let d = a.scaled() + c.scaled();
    lemma_signed32(s, 1, s < 0, z);
    lemma_signed32(d, 1, d < 0, z);
    lemma_nothing(a.add_spec(b));
    lemma_nothing(a.sub_spec(b));
    assert(1 * a.add_spec(b).scaled() == a.add_spec(b).scaled());
}

/// A product is the nearest number to the exact one.
pub proof fn law_products_are_nearest32(a: F32, b: F32, z: F32)
    requires
        a.finite(),
        b.finite(),
        z.finite(),
    ensures
        ({
            let s = a.scaled() * b.scaled();
            let r = a.mul_spec(b);
            &&& !r.nan()
            &&& r.finite() ==> apart(s, one32() * r.scaled()) <= apart(s, one32() * z.scaled())
            &&& s == one32() * z.scaled() ==> r.finite() && r.scaled() == z.scaled()
        }),
{
    let neg = a.neg_bit() != b.neg_bit();
    let u = a.units() as int;
    let v = b.units() as int;
    let s = a.scaled() * b.scaled();
    lemma_pow2_pos(149);
    assert(u * v >= 0) by (nonlinear_arith)
        requires
            u >= 0,
            v >= 0,
    ;
    assert((-u) * v == -(u * v)) by (nonlinear_arith);
    assert(u * (-v) == -(u * v)) by (nonlinear_arith);
    assert((-u) * (-v) == u * v) by (nonlinear_arith);
    assert(magnitude(s) == a.units() * b.units());
    lemma_signed32(s, one32(), neg, z);
}

/// A binary64 number is taken over as the nearest binary32 one, and exactly where there is
/// one that equals it.
pub proof fn law_narrowing_is_nearest(x: F64, z: F32)
    requires
        x.finite(),
        z.finite(),
    ensures
        ({
            let r = F32::of_f64(x);
            &&& !r.nan()
            &&& r.finite() ==> apart(x.scaled() * one32(), r.scaled() * one()) <= apart(
                x.scaled() * one32(),
                z.scaled() * one(),
            )
            &&& x.scaled() * one32() == z.scaled() * one() ==> r.finite() && r.scaled()
                == z.scaled()
        }),
{
    let r = F32::of_f64(x);
    let k = pow2(925) as int;
    let o = one32() as int;
    lemma_pow2_pos(925);
    lemma_pow2_pos(149);
    lemma_pow2_adds(925, 149);
    lemma_signed32(x.scaled(), pow2(925), x.neg_bit(), z);
    assert(magnitude(x.scaled()) == x.units());
    assert(one() == k * o);
    let s = x.scaled();
    let p = r.scaled();
    let q = z.scaled();
    assert(p * (k * o) == (k * p) * o) by (nonlinear_arith);
    assert(q * (k * o) == (k * q) * o) by (nonlinear_arith);
    if r.finite() {
        lemma_apart_times(s, k * p, k * q, o);
    }
    if s * o == q * one() {
        assert(s == k * q) by (nonlinear_arith)
            requires
                s * o == (k * q) * o,
                o > 0,
        ;
    }
}

proof fn lemma_apart_times(s: int, p: int, q: int, o: int)
    requires
        o > 0,
        apart(s, p) <= apart(s, q),
    ensures
        apart(s * o, p * o) <= apart(s * o, q * o),
{
    lemma_apart_scaled(s, p, o);
    lemma_apart_scaled(s, q, o);
    let x = apart(s, p);
    let y = apart(s, q);
    assert(x * o <= y * o) by (nonlinear_arith)
        requires
            x <= y,
            o > 0,
    ;
}

proof fn lemma_apart_scaled(s: int, p: int, o: int)
    requires
        o > 0,
    ensures
        apart(s * o, p * o) == apart(s, p) * o,
{
    assert(s * o - p * o == (s - p) * o) by (nonlinear_arith);
    assert(p * o - s * o == (p - s) * o) by (nonlinear_arith);
    assert((s < p) <==> (s * o < p * o)) by (nonlinear_arith)
        requires
            o > 0,
    ;
}

/// Comparison is the order of the numbers.
pub proof fn law_order32(a: F32, b: F32)
    requires
        a.finite(),
        b.finite(),
    ensures
        a.flt(b) <==> a.scaled() < b.scaled(),
        a.feq(b) <==> a.scaled() == b.scaled(),
{
    lemma_nothing(a);
    lemma_nothing(b);
    if a.mag() < b.mag() {
        lemma_grid_increases(23, a.mag(), b.mag());
    } else if b.mag() < a.mag() {
        lemma_grid_increases(23, b.mag(), a.mag());
    }
}

/// The number is the integer `i`.
pub open spec fn is_whole32(x: F32, i: int) -> bool {
    x.finite() && x.scaled() == i * one32()
}

/// Integers of up to twenty-four bits have a number that is exactly them.
pub proof fn lemma_small32(i: int) -> (z: F32)
    requires
        -0x100_0000 < i < 0x100_0000,
    ensures
        is_whole32(z, i),
{
    vstd::arithmetic::power2::lemma2_to64();
    lemma_pow2_unfold(24);
    let n = magnitude(i);
    let zero = pack32(false, 0);
    lemma_nothing(zero);
    if n == 0 {
        assert(i * one32() == 0) by (nonlinear_arith)
            requires
                i == 0,
        ;
        zero
    } else {
        let b = lemma_code_of(23, n, 149);
        assert(151 * pow2(23) < INF32);
        let z = pack32(i < 0, b);
        assert(z.mag() == b);
        assert(z.units() == n * one32());
        assert((-(n as int)) * one32() == -(n * one32())) by (nonlinear_arith);
        z
    }
}

pub proof fn lemma_whole_sum32(x: F32, y: F32, i: int, j: int)
    requires
        is_whole32(x, i),
        is_whole32(y, j),
        -0x100_0000 < i + j < 0x100_0000,
    ensures
        is_whole32(x.add_spec(y), i + j),
{
    let z = lemma_small32(i + j);
    law_sums_are_nearest32(x, y, z);
    assert((i + j) * one32() == i * one32() + j * one32()) by (nonlinear_arith);
}

pub proof fn lemma_whole_difference32(x: F32, y: F32, i: int, j: int)
    requires
        is_whole32(x, i),
        is_whole32(y, j),
        -0x100_0000 < i - j < 0x100_0000,
    ensures
        is_whole32(x.sub_spec(y), i - j),
{
    let z = lemma_small32(i - j);
    law_sums_are_nearest32(x, y, z);
    assert((i - j) * one32() == i * one32() - j * one32()) by (nonlinear_arith);
}

pub proof fn lemma_whole_product32(x: F32, y: F32, i: int, j: int)
    requires
        is_whole32(x, i),
        is_whole32(y, j),
        -0x100_0000 < i * j < 0x100_0000,
    ensures
        is_whole32(x.mul_spec(y), i * j),
{
    let z = lemma_small32(i * j);
    law_products_are_nearest32(x, y, z);
    let o = one32() as int;
    assert((i * o) * (j * o) == o * ((i * j) * o)) by (nonlinear_arith);
}

/// The bits of zero, one and two.
pub proof fn lemma_constants32()
    ensures
        is_whole32(pack32(false, 0), 0),
        is_whole32(pack32(false, 0x3F80_0000), 1),
        is_whole32(pack32(false, 0x4000_0000), 2),
        one32() > 0,
{
    vstd::arithmetic::power2::lemma2_to64();
    lemma_pow2_pos(149);
    lemma_nothing(pack32(false, 0));
    lemma_grid_at(23, 126, pow2(23));
    lemma_pow2_adds(23, 126);
    lemma_grid_at(23, 127, pow2(23));
    lemma_pow2_adds(23, 127);
    lemma_pow2_unfold(150);
    assert(126 * pow2(23) + pow2(23) == 0x3F80_0000);
    assert(127 * pow2(23) + pow2(23) == 0x4000_0000);
}

/// What is held between zero and one stays where it lies between them, and otherwise becomes
/// the nearer end.
pub proof fn law_held_to_the_unit(x: F32)
    requires
        x.finite(),
    ensures
        x.unit_spec().finite(),
        x.scaled() < 0 ==> x.unit_spec().scaled() == 0,
        0 <= x.scaled() <= one32() ==> x.unit_spec() == x,
        x.scaled() > one32() ==> x.unit_spec().scaled() == one32(),
{
    lemma_constants32();
    law_order32(x, pack32(false, 0));
    law_order32(pack32(false, 0x3F80_0000), x);
}

}
