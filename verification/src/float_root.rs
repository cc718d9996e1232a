//! The square root of binary64 numbers.
use crate::float64::one;
use crate::float64::pack;
use crate::float64::F64;
use crate::float64::INF;
use crate::float64::NAN;
use crate::float_grid::grid;
use crate::float_grid::lemma_code_parts;
use crate::float_grid::lemma_grid_at;
use crate::float_grid::lemma_grid_increases;
use crate::float_grid::nearest;
use crate::rounding::bias;
use crate::rounding::bit_len;
use crate::rounding::round_scaled;
use crate::rounding::scaled_value;
use crate::rounding::two_to;
use vstd::arithmetic::power2::pow2;
use vstd::prelude::*;

verus! {

/// Code `b` is what the square root of `num` rounds to: no code is closer, and on a tie `b`
/// is even.
pub open spec fn nearest_root(num: nat, b: int) -> bool {
    &&& 0 <= b <= INF
    &&& b > 0 ==> {
        let mid = grid(52, b - 1) + grid(52, b);
        4 * num > mid * mid || (4 * num == mid * mid && b % 2 == 0)
    }
    &&& b < INF ==> {
        let mid = grid(52, b) + grid(52, b + 1);
        4 * num < mid * mid || (4 * num == mid * mid && b % 2 == 0)
    }
}

/// The code that the square root of `num` rounds to.
pub open spec fn root_code(num: nat) -> int {
    choose|b: int| nearest_root(num, b)
}

/// A square root rounds to one code only.
pub proof fn lemma_root_unique(num: nat, a: int, b: int)
    requires
        nearest_root(num, a),
        nearest_root(num, b),
    ensures
        a == b,
{
    if a < b {
        lemma_root_ordered(num, a, b);
    } else if b < a {
        lemma_root_ordered(num, b, a);
    }
}

proof fn lemma_root_ordered(num: nat, a: int, b: int)
    requires
        nearest_root(num, a),
        a < b,
    ensures
        !nearest_root(num, b),
{
    let lo = grid(52, a) + grid(52, a + 1);
    let hi = grid(52, b - 1) + grid(52, b);
    if a + 1 < b {
        lemma_grid_increases(52, a, b - 1);
        lemma_grid_increases(52, a + 1, b);
        assert(lo * lo < hi * hi) by (nonlinear_arith)
            requires
                0 <= lo < hi,
        ;
    }
}

impl F64 {
    /// The square root. Of a negative number it is NaN, and the zeros are their own roots.
    pub open spec fn sqrt_spec(self) -> F64 {
        if self.nan() {
            pack(false, NAN as int)
        } else if self.zero() {
            self
        } else if self.neg_bit() {
            pack(false, NAN as int)
        } else if self.inf() {
            self
        } else {
            pack(false, root_code(self.units() * one()))
        }
    }
}

/// The integer below the square root of `n`.
fn int_sqrt(n: u128) -> (r: u64)
    requires
        n < pow2(110),
    ensures
        r * r <= n,
        n < (r + 1) * (r + 1),
        r < 0x80_0000_0000_0000,
{
    let mut r: u64 = 0;
    let mut bit: u32 = 55;
    proof {
        vstd::arithmetic::power2::lemma2_to64_rest();
        vstd::arithmetic::power2::lemma_pow2_adds(55, 55);
    }
    while bit > 0
        invariant
            bit <= 55,
            r * r <= n,
            n < (r + pow2(bit as nat)) * (r + pow2(bit as nat)),
            r + pow2(bit as nat) <= 0x80_0000_0000_0000,
        decreases bit,
    {
        bit = bit - 1;
        proof {
            vstd::arithmetic::power2::lemma_pow2_unfold((bit + 1) as nat);
            vstd::arithmetic::power2::lemma_pow2_pos(bit as nat);
            vstd::arithmetic::power2::lemma2_to64_rest();
            if bit < 55 {
                vstd::arithmetic::power2::lemma_pow2_strictly_increases(bit as nat, 55);
            }
        }
        let step: u64 = two_to(bit) as u64;
        let cand: u64 = r + step;
        proof {
            assert(cand * cand <= 0x80_0000_0000_0000 * 0x80_0000_0000_0000) by (nonlinear_arith)
                requires
                    cand <= 0x80_0000_0000_0000,
            ;
        }
        if cand as u128 * cand as u128 <= n {
            r = cand;
        }
    }
    proof {
        vstd::arithmetic::power2::lemma2_to64();
    }
    r
}

/// Grid points from the start of block `e` on are multiples of `2^e`.
proof fn lemma_grid_multiple(b: int, e: nat) -> (t: nat)
    requires
        b >= (e + 1) * pow2(52),
    ensures
        grid(52, b) == t * pow2(e),
{
    let (f, q) = lemma_code_parts(52, b);
    let p = pow2(52);
    vstd::arithmetic::power2::lemma_pow2_pos(52);
    assert(f >= e) by (nonlinear_arith)
        requires
            f * p + q >= (e + 1) * p,
            q < 2 * p,
            p > 0,
    ;
    let d = (f - e) as nat;
    vstd::arithmetic::power2::lemma_pow2_adds(d, e);
    assert(q * pow2(f) == (q * pow2(d)) * pow2(e)) by (nonlinear_arith)
        requires
            pow2(f) == pow2(d) * pow2(e),
    ;
    q * pow2(d)
}

/// Where a midpoint is a multiple of `2^(k + 1)`, it lies on the same side of a root between
/// `r * 2^k` and `(r + 1) * 2^k` as of the number half way between these two.
proof fn lemma_mid_side(num: int, r: int, z: int, t: int)
    requires
        z > 0,
        r >= 0,
        t >= 0,
        (r * z) * (r * z) < num,
        num < ((r + 1) * z) * ((r + 1) * z),
    ensures
        2 * t * z < (2 * r + 1) * z ==> 4 * num > (2 * t * z) * (2 * t * z),
        2 * t * z > (2 * r + 1) * z ==> 4 * num < (2 * t * z) * (2 * t * z),
        2 * t * z != (2 * r + 1) * z,
{
    assert(2 * t * z != (2 * r + 1) * z) by {
        if 2 * t * z == (2 * r + 1) * z {
            assert((2 * t) * z == (2 * r + 1) * z);
            vstd::arithmetic::mul::lemma_mul_equality_converse(z, 2 * t, 2 * r + 1);
        }
    }
    if 2 * t * z < (2 * r + 1) * z {
        assert(t <= r) by (nonlinear_arith)
            requires
                (2 * t) * z < (2 * r + 1) * z,
                z > 0,
        ;
        let a = t * z;
        let b = r * z;
        assert(0 <= a <= b) by (nonlinear_arith)
            requires
                0 <= t <= r,
                z > 0,
                a == t * z,
                b == r * z,
        ;
        assert(a * a <= b * b) by (nonlinear_arith)
            requires
                0 <= a <= b,
        ;
        assert((2 * t * z) * (2 * t * z) == 4 * (a * a)) by (nonlinear_arith)
            requires
                a == t * z,
        ;
    }
    if 2 * t * z > (2 * r + 1) * z {
        assert(t >= r + 1) by (nonlinear_arith)
            requires
                (2 * t) * z > (2 * r + 1) * z,
                z > 0,
        ;
        let a = t * z;
        let b = (r + 1) * z;
        assert(0 <= b <= a) by (nonlinear_arith)
            requires
                0 <= r + 1 <= t,
                z > 0,
                a == t * z,
                b == (r + 1) * z,
        ;
        assert(b * b <= a * a) by (nonlinear_arith)
            requires
                0 <= b <= a,
        ;
        assert((2 * t * z) * (2 * t * z) == 4 * (a * a)) by (nonlinear_arith)
            requires
                a == t * z,
        ;
    }
}

/// The nearest code of the number between two steps is the nearest code of the root there.
proof fn lemma_root_between(num: nat, r: nat, k: nat, b: int)
    requires
        r >= pow2(54),
        1 <= k <= 1600,
        (r * pow2(k)) * (r * pow2(k)) < num,
        num < ((r + 1) * pow2(k)) * ((r + 1) * pow2(k)),
        nearest(52, INF as int, (2 * r + 1) * pow2((k - 1) as nat), 1, b),
    ensures
        nearest_root(num, b),
{
    let z = pow2(k) as int;
    let half = pow2((k - 1) as nat);
    let mine = (2 * r + 1) * half;
    vstd::arithmetic::power2::lemma2_to64_rest();
    vstd::arithmetic::power2::lemma_pow2_pos(k);
    vstd::arithmetic::power2::lemma_pow2_unfold(k);
    vstd::arithmetic::power2::lemma_pow2_unfold(k + 1);
    assert(2 * mine == (2 * r + 1) * z) by (nonlinear_arith)
        requires
            mine == (2 * r + 1) * half,
            z == 2 * half,
    ;
    let p = pow2(52);
    let c0 = ((k + 2) * p) as int;
    assert(c0 == (k + 1) * p + p) by (nonlinear_arith)
        requires
            c0 == (k + 2) * p,
    ;
    assert(c0 + 1 < INF) by (nonlinear_arith)
        requires
            c0 == (k + 2) * p,
            k <= 1600,
            p == 0x10_0000_0000_0000,
            INF == 0x7FF0_0000_0000_0000,
    ;
    lemma_grid_at(52, k + 1, p);
    lemma_grid_at(52, k + 1, p + 1);
    assert(grid(52, c0) + grid(52, c0 + 1) == (2 * p + 1) * pow2(k + 1)) by (nonlinear_arith)
        requires
            grid(52, c0) == p * pow2(k + 1),
            grid(52, c0 + 1) == (p + 1) * pow2(k + 1),
    ;
    assert(2 * mine > (2 * p + 1) * pow2(k + 1)) by (nonlinear_arith)
        requires
            2 * mine == (2 * r + 1) * z,
            r >= 4 * p,
            pow2(k + 1) == 2 * z,
            z > 0,
            p > 1,
    ;
    assert(b > c0) by {
        if b <= c0 {
            assert(b < INF);
            if b < c0 {
                lemma_grid_increases(52, b, c0);
                lemma_grid_increases(52, b + 1, c0 + 1);
            }
            assert(2 * mine <= 1 * (grid(52, b) + grid(52, b + 1)));
        }
    }
    let t0 = lemma_grid_multiple(b - 1, k + 1);
    let t1 = lemma_grid_multiple(b, k + 1);
    let lo = grid(52, b - 1) + grid(52, b);
    assert(lo == 2 * (t0 + t1) * z) by (nonlinear_arith)
        requires
            lo == t0 * pow2(k + 1) + t1 * pow2(k + 1),
            pow2(k + 1) == 2 * z,
    ;
    assert(1 * lo == lo);
    lemma_mid_side(num as int, r as int, z, (t0 + t1) as int);
    if b < INF {
        let t2 = lemma_grid_multiple(b + 1, k + 1);
        let hi = grid(52, b) + grid(52, b + 1);
        assert(hi == 2 * (t1 + t2) * z) by (nonlinear_arith)
            requires
                hi == t1 * pow2(k + 1) + t2 * pow2(k + 1),
                pow2(k + 1) == 2 * z,
        ;
        assert(1 * hi == hi);
        lemma_mid_side(num as int, r as int, z, (t1 + t2) as int);
    }
}

/// The nearest code of an exact root.
proof fn lemma_root_exact(num: nat, w: nat, b: int)
    requires
        num == w * w,
        nearest(52, INF as int, w, 1, b),
    ensures
        nearest_root(num, b),
{
    let lo = grid(52, b - 1) + grid(52, b);
    let hi = grid(52, b) + grid(52, b + 1);
    assert(1 * lo == lo && 1 * hi == hi);
    lemma_square_order((2 * w) as int, lo as int);
    lemma_square_order((2 * w) as int, hi as int);
    assert((2 * w) * (2 * w) == 4 * num) by (nonlinear_arith)
        requires
            num == w * w,
    ;
}

proof fn lemma_square_order(a: int, b: int)
    requires
        a >= 0,
        b >= 0,
    ensures
        a < b <==> a * a < b * b,
        a == b <==> a * a == b * b,
{
    if a < b {
        assert(a * a < b * b) by (nonlinear_arith)
            requires
                0 <= a < b,
        ;
    } else if b < a {
        assert(b * b < a * a) by (nonlinear_arith)
            requires
                0 <= b < a,
        ;
    }
}

/// The shifted significand and its root, in powers of two.
proof fn lemma_root_scale(q: nat, e: nat, s: nat, k: nat, r: nat, n: nat)
    requires
        n == q * pow2(s),
        e + 1074 == s + 2 * k,
        r * r <= n,
        n < (r + 1) * (r + 1),
    ensures
        ({
            let num = (q * pow2(e)) * one();
            let z = pow2(k);
            &&& num == n * (z * z)
            &&& r * r == n ==> num == (r * z) * (r * z)
            &&& r * r < n ==> (r * z) * (r * z) < num
            &&& num < ((r + 1) * z) * ((r + 1) * z)
        }),
{
    let num = (q * pow2(e)) * one();
    let z = pow2(k);
    vstd::arithmetic::power2::lemma_pow2_pos(k);
    vstd::arithmetic::power2::lemma_pow2_adds(e, 1074);
    vstd::arithmetic::power2::lemma_pow2_adds(k, k);
    vstd::arithmetic::power2::lemma_pow2_adds(s, 2 * k);
    assert(k + k == 2 * k);
    let zz = z * z;
    assert(num == q * (pow2(e) * one())) by (nonlinear_arith)
        requires
            num == (q * pow2(e)) * one(),
    ;
    assert(num == n * zz) by (nonlinear_arith)
        requires
            num == q * (pow2(s) * zz),
            n == q * pow2(s),
    ;
    assert(zz > 0) by (nonlinear_arith)
        requires
            z > 0,
            zz == z * z,
    ;
    assert((r * z) * (r * z) == (r * r) * zz) by (nonlinear_arith)
        requires
            zz == z * z,
    ;
    assert(((r + 1) * z) * ((r + 1) * z) == ((r + 1) * (r + 1)) * zz) by (nonlinear_arith)
        requires
            zz == z * z,
    ;
    assert(n * zz < ((r + 1) * (r + 1)) * zz) by (nonlinear_arith)
        requires
            n < (r + 1) * (r + 1),
            zz > 0,
    ;
    if r * r < n {
        assert((r * r) * zz < n * zz) by (nonlinear_arith)
            requires
                r * r < n,
                zz > 0,
        ;
    }
}

/// What lies half way between two steps is a scaled value with its low part set.
proof fn lemma_half_way(r: nat, k: nat)
    requires
        k >= 1,
    ensures
        scaled_value(r, k as int, true, (2 * r + 1) * pow2((k - 1) as nat), 1),
{
    let half = pow2((k - 1) as nat);
    let pb = pow2(bias());
    vstd::arithmetic::power2::lemma_pow2_pos((k - 1) as nat);
    vstd::arithmetic::power2::lemma_pow2_pos(bias());
    vstd::arithmetic::power2::lemma_pow2_unfold(k);
    vstd::arithmetic::power2::lemma_pow2_adds(k, bias());
    let z = pow2(k);
    let c = 1 * pow2(k + bias());
    assert(c == z * pb);
    let w = half * pb;
    assert(w > 0) by (nonlinear_arith)
        requires
            half > 0,
            pb > 0,
            w == half * pb,
    ;
    assert(c == 2 * w) by (nonlinear_arith)
        requires
            c == z * pb,
            z == 2 * half,
            w == half * pb,
    ;
    assert(((2 * r + 1) * half) * pb == (2 * r + 1) * w) by (nonlinear_arith)
        requires
            w == half * pb,
    ;
    assert(r * c < (2 * r + 1) * w < (r + 1) * c) by (nonlinear_arith)
        requires
            c == 2 * w,
            w > 0,
    ;
}

/// A number is a scaled value.
proof fn lemma_whole_way(r: nat, k: nat)
    ensures
        scaled_value(r, k as int, false, r * pow2(k), 1),
{
    vstd::arithmetic::power2::lemma_pow2_adds(k, bias());
    assert((r * pow2(k)) * pow2(bias()) == r * (1 * (pow2(k) * pow2(bias())))) by (nonlinear_arith);
}

impl F64 {
    pub fn sqrt(self) -> (r: F64)
        ensures
            r == self.sqrt_spec(),
    {
        let c = self.code();
        if c > INF {
            return F64::pack(false, NAN);
        }
        if c == 0 {
            return self;
        }
        if self.negative() {
            return F64::pack(false, NAN);
        }
        if c == INF {
            return self;
        }
        let (q, e) = self.parts();
        proof {
            crate::float_arith::lemma_units_zero(self);
            crate::rounding::lemma_pow2_126();
            assert(q > 0) by {
                if q == 0 {
                    assert(q * pow2(e as nat) == 0) by (nonlinear_arith)
                        requires
                            q == 0,
                    ;
                }
            }
        }
        let l = bit_len(q as u128);
        proof {
            crate::float_arith::lemma_bit_len_bound(q as nat, l as nat);
        }
        let s: u32 = if (e + 1074 - (109 - l)) % 2 == 0 {
            109 - l
        } else {
            110 - l
        };
        let k: u32 = (e + 1074 - s) / 2;
        proof {
            lemma_root_shift(q as nat, l as nat, s as nat);
        }
        let n: u128 = q as u128 * two_to(s);
        let r = int_sqrt(n);
        proof {
            lemma_root_size(n as nat, r as nat);
            lemma_root_scale(q as nat, e as nat, s as nat, k as nat, r as nat, n as nat);
            vstd::arithmetic::power2::lemma2_to64_rest();
            assert(2047 * pow2(52) == INF);
        }
        let sticky = (r as u128) * (r as u128) < n;
        let ghost num = self.units() * one();
        let ghost stand = if sticky {
            (2 * r + 1) as nat * pow2((k - 1) as nat)
        } else {
            r as nat * pow2(k as nat)
        };
        proof {
            if sticky {
                lemma_half_way(r as nat, k as nat);
            } else {
                lemma_whole_way(r as nat, k as nat);
            }
        }
        let b = round_scaled(52, 2047, r as u128, k as i32, sticky, Ghost(stand), Ghost(1));
        proof {
            if sticky {
                lemma_root_between(num, r as nat, k as nat, b as int);
            } else {
                lemma_root_exact(num, r as nat * pow2(k as nat), b as int);
            }
            lemma_root_unique(num, b as int, root_code(num));
        }
        F64::pack(false, b)
    }
}

proof fn lemma_root_shift(q: nat, l: nat, s: nat)
    requires
        1 <= l <= 53,
        pow2((l - 1) as nat) <= q < pow2(l),
        s == 109 - l || s == 110 - l,
    ensures
        pow2(108) <= q * pow2(s) < pow2(110),
        pow2(110) < pow2(126),
{
    let lm = (l - 1) as nat;
    vstd::arithmetic::power2::lemma_pow2_adds(lm, s);
    vstd::arithmetic::power2::lemma_pow2_adds(l, s);
    vstd::arithmetic::power2::lemma_pow2_pos(s);
    vstd::arithmetic::power2::lemma_pow2_strictly_increases(110, 126);
    vstd::arithmetic::power2::lemma_pow2_strictly_increases(108, 109);
    vstd::arithmetic::power2::lemma_pow2_strictly_increases(109, 110);
    assert(pow2(lm) * pow2(s) <= q * pow2(s) < pow2(l) * pow2(s)) by (nonlinear_arith)
        requires
            pow2(lm) <= q < pow2(l),
            pow2(s) > 0,
    ;
}

proof fn lemma_root_size(n: nat, r: nat)
    requires
        pow2(108) <= n,
        n < (r + 1) * (r + 1),
        r < 0x80_0000_0000_0000,
    ensures
        r >= pow2(54),
        0 < r < pow2(126),
{
    vstd::arithmetic::power2::lemma2_to64_rest();
    vstd::arithmetic::power2::lemma_pow2_adds(54, 54);
    crate::rounding::lemma_pow2_126();
    let p = pow2(54);
    assert(r >= p) by (nonlinear_arith)
        requires
            p * p < (r + 1) * (r + 1),
            p >= 0,
            r >= 0,
    ;
}

}
