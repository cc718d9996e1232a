//! What the arithmetic of binary64 numbers comes to, in terms of the numbers themselves: a
//! result is the representable number that is nearest to the exact one.
use crate::float64::magnitude;
use crate::float64::of_int;
use crate::float64::one;
use crate::float64::pack;
use crate::float64::round64;
use crate::float64::F64;
use crate::float64::INF;
use crate::float_arith::lemma_units_zero;
use crate::float_grid::grid;
use crate::float_grid::lemma_grid_at;
use crate::float_grid::lemma_grid_increases;
use crate::float_grid::nearest;
use crate::float_order::lemma_round_exists;
use crate::float_root::lemma_root_unique;
use crate::float_root::nearest_root;
use crate::float_root::root_code;
use vstd::arithmetic::power2::lemma_pow2_pos;
use vstd::arithmetic::power2::lemma_pow2_unfold;
use vstd::arithmetic::power2::pow2;
use vstd::prelude::*;

verus! {

/// The distance of two integers.
pub open spec fn apart(a: int, b: int) -> int {
    if a < b {
        b - a
    } else {
        a - b
    }
}

/// The integers that binary64 numbers hold without loss.
pub open spec fn small(i: int) -> bool {
    -0x20_0000_0000_0000 <= i <= 0x20_0000_0000_0000
}

/// No code is nearer than the nearest one.
pub proof fn lemma_best(p: nat, top: int, num: nat, den: nat, b: int, c: int)
    requires
        den > 0,
        nearest(p, top, num, den, b),
        0 <= c < top,
    ensures
        b < top ==> apart(num as int, (den * grid(p, b)) as int) <= apart(
            num as int,
            (den * grid(p, c)) as int,
        ),
        b < top && b != c && apart(num as int, (den * grid(p, b)) as int) == apart(
            num as int,
            (den * grid(p, c)) as int,
        ) ==> b % 2 == 0,
        b == top ==> num > den * grid(p, c),
{
    let x = grid(p, b) as int;
    let z = grid(p, c) as int;
    if c < b {
        let y = grid(p, b - 1) as int;
        lemma_grid_increases(p, b - 1, b);
        if c < b - 1 {
            lemma_grid_increases(p, c, b - 1);
        }
        assert(den * (y + x) == den * y + den * x) by (nonlinear_arith);
        assert(den * z <= den * y < den * x) by (nonlinear_arith)
            requires
                den > 0,
                z <= y < x,
        ;
    } else if c > b {
        let y = grid(p, b + 1) as int;
        lemma_grid_increases(p, b, b + 1);
        if b + 1 < c {
            lemma_grid_increases(p, b + 1, c);
        }
        assert(den * (x + y) == den * x + den * y) by (nonlinear_arith);
        assert(den * x < den * y <= den * z) by (nonlinear_arith)
            requires
                den > 0,
                x < y <= z,
        ;
    }
}

/// What is rounded is nearest, whatever its sign.
proof fn lemma_signed(s: int, den: nat, neg: bool, z: F64)
    requires
        den > 0,
        neg ==> s <= 0,
        !neg ==> s >= 0,
        z.finite(),
    ensures
        ({
            let r = pack(neg, round64(magnitude(s), den));
            &&& r.neg_bit() == neg
            &&& r.mag() == round64(magnitude(s), den)
            &&& !r.nan()
            &&& r.finite() ==> apart(s, den * r.scaled()) <= apart(s, den * z.scaled())
            &&& r.finite() && r.scaled() != z.scaled() && apart(s, den * r.scaled()) == apart(
                s,
                den * z.scaled(),
            ) ==> r.mag() % 2 == 0
            &&& !r.finite() ==> apart(s, 0) > den * z.units()
            &&& s == den * z.scaled() ==> r.finite() && r.scaled() == z.scaled()
        }),
{
    let n = magnitude(s);
    let b = round64(n, den);
    lemma_round_exists(52, INF as int, n, den);
    let r = pack(neg, b);
    assert(r.neg_bit() == neg);
    assert(r.mag() == b);
    lemma_best(52, INF as int, n, den, b, z.mag());
    lemma_best(52, INF as int, n, den, b, 0);
    lemma_units_zero(pack(false, 0));
    let u = r.units() as int;
    let v = z.units() as int;
    assert(den * 0 == 0);
    assert(den * (-u) == -(den * u)) by (nonlinear_arith);
    assert(den * (-v) == -(den * v)) by (nonlinear_arith);
    assert(den * v >= 0) by (nonlinear_arith)
        requires
            den > 0,
            v >= 0,
    ;
    assert(den * u >= 0) by (nonlinear_arith)
        requires
            den > 0,
            u >= 0,
    ;
    if r.finite() {
        if b != 0 {
            lemma_units_zero(r);
            assert(den * u > 0) by (nonlinear_arith)
                requires
                    den > 0,
                    u > 0,
            ;
        }
        if z.mag() == b {
            assert(u == v);
        }
        if s == den * z.scaled() {
            assert(den * r.scaled() == den * z.scaled());
            assert(r.scaled() == z.scaled()) by (nonlinear_arith)
                requires
                    den > 0,
                    den * r.scaled() == den * z.scaled(),
            ;
        }
        if v == 0 && z.neg_bit() != neg {
            lemma_units_zero(z);
        }
    }
}

/// A sum is the number nearest to the sum of the two numbers. On a tie its code is even. It
/// leaves the finite numbers only beyond all of them, and it is exact where it can be.
pub proof fn law_sums_are_nearest(a: F64, b: F64, z: F64)
    requires
        a.finite(),
        b.finite(),
        z.finite(),
    ensures
        ({
            let s = a.scaled() + b.scaled();
            let r = a.add_spec(b);
            &&& !r.nan()
            &&& r.finite() ==> apart(s, r.scaled()) <= apart(s, z.scaled())
            &&& r.finite() && r.scaled() != z.scaled() && apart(s, r.scaled()) == apart(
                s,
                z.scaled(),
            ) ==> r.mag() % 2 == 0
            &&& r.inf() ==> apart(s, 0) > z.units() && r.neg_bit() == (s < 0)
            &&& s == z.scaled() ==> r.finite() && r.scaled() == s
        }),
{
    let s = a.scaled() + b.scaled();
    if s == 0 {
        lemma_units_zero(pack(a.neg_bit() && b.neg_bit(), 0));
    } else {
        lemma_signed(s, 1, s < 0, z);
    }
}

/// A difference is the number nearest to the first number less the second.
pub proof fn law_differences_are_nearest(a: F64, b: F64, z: F64)
    requires
        a.finite(),
        b.finite(),
        z.finite(),
    ensures
        ({
            let s = a.scaled() - b.scaled();
            let r = a.sub_spec(b);
            &&& !r.nan()
            &&& r.finite() ==> apart(s, r.scaled()) <= apart(s, z.scaled())
            &&& r.finite() && r.scaled() != z.scaled() && apart(s, r.scaled()) == apart(
                s,
                z.scaled(),
            ) ==> r.mag() % 2 == 0
            &&& r.inf() ==> apart(s, 0) > z.units() && r.neg_bit() == (s < 0)
            &&& s == z.scaled() ==> r.finite() && r.scaled() == s
        }),
{
    let n = b.neg_spec();
    assert(n.mag() == b.mag());
    assert(n.neg_bit() != b.neg_bit());
    law_sums_are_nearest(a, n, z);
}

/// A product is the number nearest to the product of the two numbers, with the sign of its
/// factors.
pub proof fn law_products_are_nearest(a: F64, b: F64, z: F64)
    requires
        a.finite(),
        b.finite(),
        z.finite(),
    ensures
        ({
            let s = a.scaled() * b.scaled();
            let r = a.mul_spec(b);
            &&& !r.nan()
            &&& r.neg_bit() == (a.neg_bit() != b.neg_bit())
            &&& r.finite() ==> apart(s, one() * r.scaled()) <= apart(s, one() * z.scaled())
            &&& r.finite() && r.scaled() != z.scaled() && apart(s, one() * r.scaled()) == apart(
                s,
                one() * z.scaled(),
            ) ==> r.mag() % 2 == 0
            &&& r.inf() ==> apart(s, 0) > one() * z.units()
            &&& s == one() * z.scaled() ==> r.finite() && r.scaled() == z.scaled()
        }),
{
    let s = a.scaled() * b.scaled();
    let neg = a.neg_bit() != b.neg_bit();
    let u = a.units() as int;
    let v = b.units() as int;
    lemma_pow2_pos(1074);
    assert(u * v >= 0) by (nonlinear_arith)
        requires
            u >= 0,
            v >= 0,
    ;
    assert((-u) * v == -(u * v)) by (nonlinear_arith);
    assert(u * (-v) == -(u * v)) by (nonlinear_arith);
    assert((-u) * (-v) == u * v) by (nonlinear_arith);
    assert(magnitude(s) == a.units() * b.units());
    lemma_signed(s, one(), neg, z);
}

/// A quotient is the number that, times the divisor, comes nearest to the dividend.
pub proof fn law_quotients_are_nearest(a: F64, b: F64, z: F64)
    requires
        a.finite(),
        b.finite(),
        !b.zero(),
        z.finite(),
    ensures
        ({
            let s = a.scaled() * one();
            let r = a.div_spec(b);
            &&& !r.nan()
            &&& r.neg_bit() == (a.neg_bit() != b.neg_bit())
            &&& r.finite() ==> apart(s, b.scaled() * r.scaled()) <= apart(
                s,
                b.scaled() * z.scaled(),
            )
            &&& r.inf() ==> apart(s, 0) > b.units() * z.units()
            &&& s == b.scaled() * z.scaled() ==> r.finite() && r.scaled() == z.scaled()
        }),
{
    let neg = a.neg_bit() != b.neg_bit();
    let u = a.units() as int;
    let v = b.units();
    let o = one() as int;
    lemma_pow2_pos(1074);
    lemma_units_zero(b);
    assert(u * o >= 0) by (nonlinear_arith)
        requires
            u >= 0,
            o > 0,
    ;
    assert((-u) * o == -(u * o)) by (nonlinear_arith);
    let s = if neg {
        -(u * o)
    } else {
        u * o
    };
    let t = if b.neg_bit() {
        z.neg_spec()
    } else {
        z
    };
    assert(magnitude(s) == a.units() * one());
    lemma_signed(s, v, neg, z);
    let r = a.div_spec(b);
    let p = r.scaled();
    let q = z.scaled();
    assert((-v) * p == -(v * p)) by (nonlinear_arith);
    assert((-v) * q == -(v * q)) by (nonlinear_arith);
}

/// The opposite of a number, and its distance from zero.
pub proof fn law_signs(a: F64)
    ensures
        a.neg_spec().scaled() == -a.scaled(),
        a.neg_spec().neg_spec() == a,
        a.abs_spec().scaled() == apart(a.scaled(), 0),
        a.neg_spec().nan() == a.nan(),
        a.neg_spec().finite() == a.finite(),
{
    assert(a.neg_spec().mag() == a.mag());
    assert(a.abs_spec().mag() == a.mag());
}

/// A significand that fits has a code.
pub proof fn lemma_code_of(p: nat, q: nat, e: nat) -> (b: int)
    requires
        0 < q < pow2(p + 1),
    ensures
        0 < b,
        grid(p, b) == q * pow2(e),
        b < (e + 2) * pow2(p),
    decreases e,
{
    lemma_pow2_unfold(p + 1);
    lemma_pow2_pos(p);
    if e == 0 || pow2(p) <= q {
        lemma_grid_at(p, e, q);
        let b = (e * pow2(p) + q) as int;
        assert(e * pow2(p) >= 0) by (nonlinear_arith)
            requires
                pow2(p) > 0,
        ;
        assert((e + 2) * pow2(p) == e * pow2(p) + 2 * pow2(p)) by (nonlinear_arith);
        b
    } else {
        let b = lemma_code_of(p, 2 * q, (e - 1) as nat);
        lemma_pow2_unfold(e);
        assert((2 * q) * pow2((e - 1) as nat) == q * pow2(e)) by (nonlinear_arith)
            requires
                pow2(e) == 2 * pow2((e - 1) as nat),
        ;
        assert((e - 1 + 2) * pow2(p) <= (e + 2) * pow2(p)) by (nonlinear_arith)
            requires
                pow2(p) > 0,
        ;
        b
    }
}

/// Integers of up to fifty-three bits have a number that is exactly them.
proof fn lemma_small(i: int) -> (z: F64)
    requires
        small(i),
    ensures
        z.finite(),
        z.scaled() == i * one(),
{
    vstd::arithmetic::power2::lemma2_to64_rest();
    lemma_pow2_unfold(53);
    let n = magnitude(i);
    let zero = pack(false, 0);
    lemma_units_zero(zero);
    if n == 0 {
        assert(i * one() == 0) by (nonlinear_arith)
            requires
                i == 0,
        ;
        zero
    } else {
        let b = if n < pow2(53) {
            lemma_code_of(52, n, 1074)
        } else {
            lemma_pow2_unfold(1075);
            assert(pow2(52) * pow2(1075) == n * pow2(1074)) by (nonlinear_arith)
                requires
                    pow2(1075) == 2 * pow2(1074),
                    n == 2 * pow2(52),
            ;
            lemma_code_of(52, pow2(52), 1075)
        };
        assert(1077 * pow2(52) < INF);
        let z = pack(i < 0, b);
        assert(z.mag() == b);
        assert(z.units() == n * one());
        assert((-(n as int)) * one() == -(n * one())) by (nonlinear_arith);
        z
    }
}

/// The number of an integer is the nearest there is, and exact up to fifty-three bits.
pub proof fn law_integers_are_nearest(i: int, z: F64)
    requires
        z.finite(),
    ensures
        ({
            let r = of_int(i);
            &&& !r.nan()
            &&& r.neg_bit() == (i < 0)
            &&& r.finite() ==> apart(i * one(), r.scaled()) <= apart(i * one(), z.scaled())
            &&& small(i) ==> r.finite() && r.scaled() == i * one()
        }),
{
    let n = magnitude(i);
    let s = i * one();
    lemma_pow2_pos(1074);
    assert(n * one() >= 0) by (nonlinear_arith)
        requires
            n >= 0,
            one() > 0,
    ;
    assert((-(n as int)) * one() == -(n * one())) by (nonlinear_arith);
    if i < 0 {
        assert(n * one() > 0) by (nonlinear_arith)
            requires
                n > 0,
                one() > 0,
        ;
    }
    assert(magnitude(s) == n * one());
    lemma_signed(s, 1, i < 0, z);
    if small(i) {
        let x = lemma_small(i);
        lemma_signed(s, 1, i < 0, x);
    }
}

/// A square root is nearest: the radicand lies on its side of the middle to every other
/// number. It is exact where it can be, and there is none of a negative number.
pub proof fn law_roots_are_nearest(a: F64, z: F64)
    requires
        a.finite(),
        z.finite(),
        !z.neg_bit(),
    ensures
        ({
            let r = a.sqrt_spec();
            let m = r.scaled() + z.scaled();
            &&& r.nan() <==> a.scaled() < 0
            &&& a.scaled() >= 0 && r.finite() ==> {
                &&& r.scaled() >= 0
                &&& r.scaled() < z.scaled() ==> 4 * (a.scaled() * one()) <= m * m
                &&& z.scaled() < r.scaled() ==> m * m <= 4 * (a.scaled() * one())
            }
            &&& z.scaled() * z.scaled() == a.scaled() * one() ==> r.finite() && r.scaled()
                == z.scaled()
        }),
{
    let r = a.sqrt_spec();
    lemma_units_zero(a);
    lemma_units_zero(z);
    lemma_pow2_pos(1074);
    let num = a.units() * one();
    if a.zero() {
        assert(a.scaled() * one() == 0) by (nonlinear_arith)
            requires
                a.scaled() == 0,
        ;
        let v = z.scaled();
        if v > 0 {
            assert(v * v > 0) by (nonlinear_arith)
                requires
                    v > 0,
            ;
        }
        assert(r == a);
        let m = r.scaled() + z.scaled();
        assert(m * m >= 0) by (nonlinear_arith);
    } else if a.neg_bit() {
        assert(a.scaled() < 0);
        let v = z.scaled();
        assert(v * v >= 0) by (nonlinear_arith);
        assert(a.scaled() * one() < 0) by (nonlinear_arith)
            requires
                a.scaled() < 0,
                one() > 0,
        ;
    } else {
        lemma_root_there(num);
        let b = root_code(num);
        assert(r.mag() == b && !r.neg_bit());
        let c = z.mag();
        lemma_root_side(num, b, c);
        if b < c {
            lemma_grid_increases(52, b, c);
        } else if c < b {
            lemma_grid_increases(52, c, b);
        }
        assert(a.scaled() * one() == num);
        assert(z.scaled() == z.units());
        assert(r.scaled() == r.units());
        let v = z.units() as int;
        if v * v == num && b != c {
            lemma_root_self(num, c);
            lemma_root_unique(num, b, c);
        }
    }
}

/// On which side of the middle to another code a rounded root's radicand lies.
proof fn lemma_root_side(num: nat, b: int, c: int)
    requires
        nearest_root(num, b),
        0 <= c < INF,
    ensures
        ({
            let m = grid(52, b) + grid(52, c);
            &&& b < c ==> 4 * num <= m * m
            &&& c < b ==> m * m <= 4 * num
        }),
{
    let x = grid(52, b) as int;
    let z = grid(52, c) as int;
    let m = x + z;
    if b < c {
        let y = grid(52, b + 1) as int;
        if b + 1 < c {
            lemma_grid_increases(52, b + 1, c);
        }
        let k = x + y;
        assert(k * k <= m * m) by (nonlinear_arith)
            requires
                0 <= k <= m,
        ;
    } else if c < b {
        let y = grid(52, b - 1) as int;
        if c < b - 1 {
            lemma_grid_increases(52, c, b - 1);
        }
        let k = y + x;
        assert(m * m <= k * k) by (nonlinear_arith)
            requires
                0 <= m <= k,
        ;
    }
}

/// The root of a square is its side.
proof fn lemma_root_self(num: nat, c: int)
    requires
        0 <= c < INF,
        grid(52, c) * grid(52, c) == num,
    ensures
        nearest_root(num, c),
{
    let z = grid(52, c) as int;
    if c > 0 {
        lemma_grid_increases(52, c - 1, c);
        let m = grid(52, c - 1) + z;
        assert(m * m < 4 * (z * z)) by (nonlinear_arith)
            requires
                0 <= m < 2 * z,
        ;
    }
    lemma_grid_increases(52, c, c + 1);
    let m = z + grid(52, c + 1);
    assert(4 * (z * z) < m * m) by (nonlinear_arith)
        requires
            0 <= 2 * z < m,
    ;
}

/// Some code is nearest to a root.
proof fn lemma_root_there(num: nat)
    ensures
        nearest_root(num, root_code(num)),
{
    let b = lemma_root_search(num, 0);
    assert(nearest_root(num, b));
}

proof fn lemma_root_search(num: nat, b: int) -> (r: int)
    requires
        0 <= b <= INF,
        b > 0 ==> {
            let m = grid(52, b - 1) + grid(52, b);
            4 * num > m * m || (4 * num == m * m && b % 2 == 0)
        },
    ensures
        nearest_root(num, r),
    decreases INF - b,
{
    if b == INF {
        b
    } else {
        let m = grid(52, b) + grid(52, b + 1);
        if 4 * num < m * m || (4 * num == m * m && b % 2 == 0) {
            b
        } else {
            lemma_root_search(num, b + 1)
        }
    }
}

/// Cutting off keeps the integer part: the result is no further from zero than the number,
/// and less than one away from it.
pub proof fn law_cutting_off(a: F64)
    requires
        a.finite(),
        apart(a.scaled(), 0) < 0x7FFF_FFFF_FFFF_FFFF * one(),
    ensures
        ({
            let n = a.trunc_spec() as int;
            &&& a.scaled() >= 0 ==> 0 <= n && n * one() <= a.scaled() < (n + 1) * one()
            &&& a.scaled() <= 0 ==> n <= 0 && (n - 1) * one() < a.scaled() <= n * one()
        }),
{
    let u = a.units() as int;
    let o = one() as int;
    lemma_pow2_pos(1074);
    vstd::arithmetic::div_mod::lemma_fundamental_div_mod(u, o);
    vstd::arithmetic::div_mod::lemma_mod_bound(u, o);
    let q = u / o;
    let big: int = 0x7FFF_FFFF_FFFF_FFFF;
    vstd::arithmetic::div_mod::lemma_div_pos_is_pos(u, o);
    assert(q <= big) by (nonlinear_arith)
        requires
            u < big * o,
            u == o * q + u % o,
            u % o >= 0,
            o > 0,
    ;
    assert(q * o == o * q) by (nonlinear_arith);
    assert((q + 1) * o == o * q + o) by (nonlinear_arith);
    assert((-q) * o == -(o * q)) by (nonlinear_arith);
    assert((-q - 1) * o == -(o * q) - o) by (nonlinear_arith);
    if a.scaled() == 0 {
        lemma_units_zero(a);
        assert(q == 0) by (nonlinear_arith)
            requires
                0 == o * q + u % o,
                u % o >= 0,
                q >= 0,
                o > 0,
        ;
    }
}

/// No finite number is nearer to the sum of two numbers.
pub open spec fn sum_of(r: F64, a: F64, b: F64) -> bool {
    r.finite() && forall|z: F64|
        z.finite() ==> apart(a.scaled() + b.scaled(), r.scaled()) <= apart(
            a.scaled() + b.scaled(),
            #[trigger] z.scaled(),
        )
}

/// No finite number is nearer to the difference of two numbers.
pub open spec fn difference_of(r: F64, a: F64, b: F64) -> bool {
    r.finite() && forall|z: F64|
        z.finite() ==> apart(a.scaled() - b.scaled(), r.scaled()) <= apart(
            a.scaled() - b.scaled(),
            #[trigger] z.scaled(),
        )
}

/// No finite number is nearer to the product of two numbers.
pub open spec fn product_of(r: F64, a: F64, b: F64) -> bool {
    r.finite() && forall|z: F64|
        z.finite() ==> apart(a.scaled() * b.scaled(), one() * r.scaled()) <= apart(
            a.scaled() * b.scaled(),
            one() * #[trigger] z.scaled(),
        )
}

/// No finite number is nearer to the quotient of two numbers.
pub open spec fn quotient_of(r: F64, a: F64, b: F64) -> bool {
    r.finite() && forall|z: F64|
        z.finite() ==> apart(a.scaled() * one(), b.scaled() * r.scaled()) <= apart(
            a.scaled() * one(),
            b.scaled() * #[trigger] z.scaled(),
        )
}

/// Arithmetic whose results are finite gives the nearest numbers.
pub proof fn law_arithmetic_is_nearest(a: F64, b: F64)
    requires
        a.finite(),
        b.finite(),
    ensures
        a.add_spec(b).finite() ==> sum_of(a.add_spec(b), a, b),
        a.sub_spec(b).finite() ==> difference_of(a.sub_spec(b), a, b),
        a.mul_spec(b).finite() ==> product_of(a.mul_spec(b), a, b),
        !b.zero() && a.div_spec(b).finite() ==> quotient_of(a.div_spec(b), a, b),
{
    assert forall|z: F64| z.finite() && a.add_spec(b).finite() implies apart(
        a.scaled() + b.scaled(),
        a.add_spec(b).scaled(),
    ) <= apart(a.scaled() + b.scaled(), #[trigger] z.scaled()) by {
        law_sums_are_nearest(a, b, z);
    }
    assert forall|z: F64| z.finite() && a.sub_spec(b).finite() implies apart(
        a.scaled() - b.scaled(),
        a.sub_spec(b).scaled(),
    ) <= apart(a.scaled() - b.scaled(), #[trigger] z.scaled()) by {
        law_differences_are_nearest(a, b, z);
    }
    assert forall|z: F64| z.finite() && a.mul_spec(b).finite() implies apart(
        a.scaled() * b.scaled(),
        one() * a.mul_spec(b).scaled(),
    ) <= apart(a.scaled() * b.scaled(), one() * #[trigger] z.scaled()) by {
        law_products_are_nearest(a, b, z);
    }
    if !b.zero() {
        assert forall|z: F64| z.finite() && a.div_spec(b).finite() implies apart(
            a.scaled() * one(),
            b.scaled() * a.div_spec(b).scaled(),
        ) <= apart(a.scaled() * one(), b.scaled() * #[trigger] z.scaled()) by {
            law_quotients_are_nearest(a, b, z);
        }
    }
}

/// Adding keeps order.
pub proof fn law_sums_keep_order(p: F64, a: F64, b: F64)
    requires
        p.finite() && a.finite() && b.finite(),
        a.scaled() <= b.scaled(),
        p.add_spec(a).finite(),
        p.add_spec(b).finite(),
    ensures
        p.add_spec(a).scaled() <= p.add_spec(b).scaled(),
{
    let x = p.add_spec(a);
    let y = p.add_spec(b);
    law_sums_are_nearest(p, a, y);
    law_sums_are_nearest(p, b, x);
    if p.scaled() + a.scaled() == 0 {
        lemma_units_zero(x);
    }
    if p.scaled() + b.scaled() == 0 {
        lemma_units_zero(y);
    }
}

/// One is neutral in products and as a divisor, and a number is once in itself.
pub proof fn law_one_is_neutral(a: F64)
    requires
        a.finite(),
    ensures
        of_int(1).mul_spec(a) == a,
        a.mul_spec(of_int(1)) == a,
        a.div_spec(of_int(1)) == a,
        !a.zero() ==> a.div_spec(a) == of_int(1),
{
    let u = of_int(1);
    law_integers_are_nearest(1, a);
    lemma_pow2_pos(1074);
    lemma_units_zero(u);
    lemma_units_zero(a);
    assert(1 * one() == one());
    assert(u.units() == one());
    crate::float_grid::lemma_round_exact(52, INF as int, one(), a.mag());
    assert(u.units() * a.units() == a.units() * one()) by (nonlinear_arith)
        requires
            u.units() == one(),
    ;
    if !a.zero() {
        crate::float_grid::lemma_round_exact(52, INF as int, a.units(), u.mag());
        assert(a.units() * one() == u.units() * a.units());
    }
}

/// What zero and one are.
pub proof fn lemma_zero_and_one()
    ensures
        of_int(0).finite(),
        of_int(0).scaled() == 0,
        of_int(0).zero(),
        of_int(1).finite(),
        of_int(1).scaled() == one(),
        !of_int(1).neg_bit(),
        of_int(1).units() == one(),
        one() > 0,
{
    let z = pack(false, 0);
    lemma_units_zero(z);
    law_integers_are_nearest(0, z);
    law_integers_are_nearest(1, z);
    assert(0 * one() == 0 && 1 * one() == one());
    lemma_units_zero(of_int(0));
    lemma_pow2_pos(1074);
}

}
