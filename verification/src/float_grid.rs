//! The grid of binary floating-point magnitudes and rounding to it.
//!
//! A format with `p` fraction bits stores a magnitude as an integer code. Codes are ordered
//! as the magnitudes they stand for, so "the next float" is "the next code". Magnitudes are
//! measured in units of the smallest subnormal, which makes every one of them an integer:
//! code `b` below `2^p` stands for `b` units, and every further block of `2^p` codes doubles
//! the spacing.
use vstd::arithmetic::div_mod::lemma_fundamental_div_mod;
use vstd::arithmetic::div_mod::lemma_fundamental_div_mod_converse;
use vstd::arithmetic::power2::lemma_pow2_pos;
use vstd::arithmetic::power2::lemma_pow2_unfold;
use vstd::arithmetic::power2::pow2;
use vstd::prelude::*;

verus! {

/// The magnitude that code `b` stands for, in units of the smallest subnormal.
pub open spec fn grid(p: nat, b: int) -> nat {
    let f = pow2(p) as int;
    if b < f {
        b as nat
    } else {
        ((f + b % f) * pow2((b / f - 1) as nat)) as nat
    }
}

/// Code `b` is what `num / den` rounds to: no code is closer, and on a tie `b` is even.
/// `top` is the code of infinity; it counts as the grid point after the largest finite one.
pub open spec fn nearest(p: nat, top: int, num: nat, den: nat, b: int) -> bool {
    &&& 0 <= b <= top
    &&& b > 0 ==> {
        let mid = den * (grid(p, b - 1) + grid(p, b));
        2 * num > mid || (2 * num == mid && b % 2 == 0)
    }
    &&& b < top ==> {
        let mid = den * (grid(p, b) + grid(p, b + 1));
        2 * num < mid || (2 * num == mid && b % 2 == 0)
    }
}

/// The code that `num / den` rounds to.
pub open spec fn round_code(p: nat, top: int, num: nat, den: nat) -> int {
    choose|b: int| nearest(p, top, num, den, b)
}

/// A code written as block `e` and significand `q` stands for `q * 2^e`.
pub proof fn lemma_grid_at(p: nat, e: nat, q: nat)
    requires
        q <= 2 * pow2(p),
        e == 0 || pow2(p) <= q,
    ensures
        grid(p, (e * pow2(p) + q) as int) == q * pow2(e),
{
    let f = pow2(p) as int;
    let b = e * f + q;
    lemma_pow2_pos(p);
    lemma_pow2_pos(e);
    lemma_pow2_unfold(e + 1);
    assert(e * f >= 0) by (nonlinear_arith)
        requires
            f > 0,
            e >= 0,
    ;
    if q < f {
        assert(e == 0);
        assert(pow2(0) == 1) by {
            vstd::arithmetic::power2::lemma2_to64();
        }
        assert(e * f == 0) by (nonlinear_arith)
            requires
                e == 0,
        ;
        assert(q * pow2(e) == q) by (nonlinear_arith)
            requires
                pow2(e) == 1,
        ;
    } else if q < 2 * f {
        assert(b == (e + 1) * f + (q - f)) by (nonlinear_arith)
            requires
                b == e * f + q,
        ;
        lemma_fundamental_div_mod_converse(b, f, (e + 1) as int, q - f);
        assert(b >= f);
    } else {
        assert(b == (e + 2) * f + 0) by (nonlinear_arith)
            requires
                b == e * f + q,
                q == 2 * f,
        ;
        lemma_fundamental_div_mod_converse(b, f, (e + 2) as int, 0);
        assert(b >= f);
        assert(f * pow2(e + 1) == q * pow2(e)) by (nonlinear_arith)
            requires
                pow2(e + 1) == 2 * pow2(e),
                q == 2 * f,
        ;
    }
}

/// Every code is a block and a significand.
pub proof fn lemma_code_parts(p: nat, b: int) -> (r: (nat, nat))
    requires
        0 <= b,
    ensures
        b == r.0 * pow2(p) + r.1,
        r.1 < 2 * pow2(p),
        r.0 == 0 || pow2(p) <= r.1,
        grid(p, b) == r.1 * pow2(r.0),
{
    let f = pow2(p) as int;
    lemma_pow2_pos(p);
    if b < f {
        lemma_grid_at(p, 0, b as nat);
        assert(0 * f == 0);
        (0, b as nat)
    } else {
        lemma_fundamental_div_mod(b, f);
        vstd::arithmetic::div_mod::lemma_mod_bound(b, f);
        let d = b / f;
        assert(d >= 1) by (nonlinear_arith)
            requires
                b >= f,
                b == f * d + b % f,
                b % f < f,
                f > 0,
        ;
        let e = (d - 1) as nat;
        let q = (f + b % f) as nat;
        assert(b == e * f + q) by (nonlinear_arith)
            requires
                b == f * d + b % f,
                e == d - 1,
                q == f + b % f,
        ;
        lemma_grid_at(p, e, q);
        (e, q)
    }
}

pub proof fn lemma_grid_step(p: nat, b: int)
    requires
        0 <= b,
    ensures
        grid(p, b) < grid(p, b + 1),
{
    let (e, q) = lemma_code_parts(p, b);
    lemma_grid_at(p, e, q + 1);
    lemma_pow2_pos(e);
    assert(e * pow2(p) + (q + 1) == b + 1);
    assert(q * pow2(e) < (q + 1) * pow2(e)) by (nonlinear_arith)
        requires
            pow2(e) > 0,
    ;
}

/// Codes are ordered as their magnitudes.
pub proof fn lemma_grid_increases(p: nat, a: int, b: int)
    requires
        0 <= a < b,
    ensures
        grid(p, a) < grid(p, b),
    decreases b - a,
{
    lemma_grid_step(p, b - 1);
    if a < b - 1 {
        lemma_grid_increases(p, a, b - 1);
    }
}

/// A value rounds to one code only.
pub proof fn lemma_nearest_unique(p: nat, top: int, num: nat, den: nat, a: int, b: int)
    requires
        den > 0,
        nearest(p, top, num, den, a),
        nearest(p, top, num, den, b),
    ensures
        a == b,
{
    if a < b {
        lemma_nearest_ordered(p, top, num, den, a, b);
    } else if b < a {
        lemma_nearest_ordered(p, top, num, den, b, a);
    }
}

proof fn lemma_nearest_ordered(p: nat, top: int, num: nat, den: nat, a: int, b: int)
    requires
        den > 0,
        nearest(p, top, num, den, a),
        a < b,
    ensures
        !nearest(p, top, num, den, b),
{
    let lo = grid(p, a) + grid(p, a + 1);
    let hi = grid(p, b - 1) + grid(p, b);
    if a + 1 < b {
        lemma_grid_increases(p, a, b - 1);
        lemma_grid_increases(p, a + 1, b);
        assert(den * lo < den * hi) by (nonlinear_arith)
            requires
                lo < hi,
                den > 0,
        ;
    }
}

/// A code that is nearest is the one that `round_code` names.
pub proof fn lemma_round_code(p: nat, top: int, num: nat, den: nat, b: int)
    requires
        den > 0,
        nearest(p, top, num, den, b),
    ensures
        round_code(p, top, num, den) == b,
{
    lemma_nearest_unique(p, top, num, den, b, round_code(p, top, num, den));
}

/// A value on the grid rounds to its own code.
pub proof fn lemma_round_exact(p: nat, top: int, den: nat, b: int)
    requires
        den > 0,
        0 <= b <= top,
    ensures
        nearest(p, top, grid(p, b) * den, den, b),
        round_code(p, top, grid(p, b) * den, den) == b,
{
    let num = grid(p, b) * den;
    let g = grid(p, b) as int;
    if b > 0 {
        lemma_grid_step(p, b - 1);
        let h = grid(p, b - 1) as int;
        assert(2 * (g * den) > den * (h + g)) by (nonlinear_arith)
            requires
                h < g,
                den > 0,
        ;
    }
    if b < top {
        lemma_grid_step(p, b);
        let h = grid(p, b + 1) as int;
        assert(2 * (g * den) < den * (g + h)) by (nonlinear_arith)
            requires
                g < h,
                den > 0,
        ;
    }
    lemma_round_code(p, top, num, den, b);
}

}
