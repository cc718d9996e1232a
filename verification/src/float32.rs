//! IEEE 754 binary32 numbers, as renderers take them.
//!
//! A finite number is an integer multiple of the smallest subnormal, 2^-149, and `scaled` is
//! that integer. Operations compute exactly and round to the nearest code, ties to even.
use crate::float64::magnitude;
use crate::float64::F64;
use crate::float_arith::lemma_far_sum;
use crate::float_arith::lemma_near_sum;
use crate::float_arith::lemma_scaled_exact;
use crate::float_arith::lemma_units_product;
use crate::float_grid::grid;
use crate::float_grid::round_code;
use crate::rounding::round_scaled;
use crate::rounding::scaled_value;
use crate::rounding::two_to;
use vstd::arithmetic::power2::pow2;
use vstd::prelude::*;

verus! {

/// The sign bit.
pub const SIGN32: u32 = 0x8000_0000;

/// The magnitude code of infinity. Larger codes are NaN.
pub const INF32: u32 = 0x7F80_0000;

/// The magnitude code of the NaN that arithmetic returns.
pub const NAN32: u32 = 0x7FC0_0000;

/// `2^23`: the number of codes that share one spacing.
pub const FRAC32: u32 = 0x80_0000;

/// A binary32 number.
#[derive(Clone, Copy, Debug)]
pub struct F32 {
    pub bits: u32,
}

/// The number with sign `neg` and magnitude code `code`.
pub open spec fn pack32(neg: bool, code: int) -> F32 {
    F32 {
        bits: if neg {
            (code + SIGN32) as u32
        } else {
            code as u32
        },
    }
}

/// The code that `num / den` units of 2^-149 round to.
pub open spec fn round32(num: nat, den: nat) -> int {
    round_code(23, INF32 as int, num, den)
}

/// The number of units of 2^-149 in one.
pub open spec fn one32() -> nat {
    pow2(149)
}

impl F32 {
    pub open spec fn neg_bit(self) -> bool {
        self.bits >= SIGN32
    }

    pub open spec fn mag(self) -> int {
        if self.bits >= SIGN32 {
            self.bits - SIGN32
        } else {
            self.bits as int
        }
    }

    pub open spec fn nan(self) -> bool {
        self.mag() > INF32
    }

    pub open spec fn inf(self) -> bool {
        self.mag() == INF32
    }

    pub open spec fn finite(self) -> bool {
        self.mag() < INF32
    }

    pub open spec fn zero(self) -> bool {
        self.mag() == 0
    }

    /// The magnitude in units of 2^-149.
    pub open spec fn units(self) -> nat {
        grid(23, self.mag())
    }

    /// The number in units of 2^-149.
    pub open spec fn scaled(self) -> int {
        if self.neg_bit() {
            -self.units()
        } else {
            self.units() as int
        }
    }

    /// The place of a number that is no NaN in the order of all of them.
    pub open spec fn rank(self) -> int {
        if self.neg_bit() {
            -self.mag()
        } else {
            self.mag()
        }
    }

    pub open spec fn feq(self, other: F32) -> bool {
        !self.nan() && !other.nan() && self.rank() == other.rank()
    }

    pub open spec fn flt(self, other: F32) -> bool {
        !self.nan() && !other.nan() && self.rank() < other.rank()
    }

    pub open spec fn neg_spec(self) -> F32 {
        F32 {
            bits: if self.bits >= SIGN32 {
                (self.bits - SIGN32) as u32
            } else {
                (self.bits + SIGN32) as u32
            },
        }
    }

    pub open spec fn add_spec(self, other: F32) -> F32 {
        if self.nan() || other.nan() {
            pack32(false, NAN32 as int)
        } else if self.inf() {
            if other.inf() && self.neg_bit() != other.neg_bit() {
                pack32(false, NAN32 as int)
            } else {
                self
            }
        } else if other.inf() {
            other
        } else {
            let s = self.scaled() + other.scaled();
            if s == 0 {
                pack32(self.neg_bit() && other.neg_bit(), 0)
            } else {
                pack32(s < 0, round32(magnitude(s), 1))
            }
        }
    }

    pub open spec fn sub_spec(self, other: F32) -> F32 {
        self.add_spec(other.neg_spec())
    }

    pub open spec fn mul_spec(self, other: F32) -> F32 {
        let neg = self.neg_bit() != other.neg_bit();
        if self.nan() || other.nan() || (self.inf() && other.zero()) || (self.zero()
            && other.inf()) {
            pack32(false, NAN32 as int)
        } else if self.inf() || other.inf() {
            pack32(neg, INF32 as int)
        } else {
            pack32(neg, round32(self.units() * other.units(), one32()))
        }
    }

    /// The nearest binary32 number to a binary64 one.
    pub open spec fn of_f64(x: F64) -> F32 {
        if x.nan() {
            pack32(false, NAN32 as int)
        } else if x.inf() {
            pack32(x.neg_bit(), INF32 as int)
        } else {
            pack32(x.neg_bit(), round32(x.units(), pow2(925)))
        }
    }

    pub fn negative(self) -> (r: bool)
        ensures
            r == self.neg_bit(),
    {
        self.bits >= SIGN32
    }

    pub fn code(self) -> (r: u32)
        ensures
            r == self.mag(),
            r < SIGN32,
    {
        if self.bits >= SIGN32 {
            self.bits - SIGN32
        } else {
            self.bits
        }
    }

    pub fn pack(neg: bool, code: u32) -> (r: F32)
        requires
            code < SIGN32,
        ensures
            r == pack32(neg, code as int),
            r.mag() == code,
            r.neg_bit() == neg,
    {
        F32 {
            bits: if neg {
                code + SIGN32
            } else {
                code
            },
        }
    }

    pub fn eq(self, other: F32) -> (r: bool)
        ensures
            r == self.feq(other),
    {
        let a = self.code();
        let b = other.code();
        a <= INF32 && b <= INF32 && (self.bits == other.bits || (a == 0 && b == 0))
    }

    pub fn lt(self, other: F32) -> (r: bool)
        ensures
            r == self.flt(other),
    {
        let a = self.code();
        let b = other.code();
        if a > INF32 || b > INF32 {
            false
        } else if self.negative() {
            if other.negative() {
                a > b
            } else {
                a > 0 || b > 0
            }
        } else {
            !other.negative() && a < b
        }
    }

    pub fn neg(self) -> (r: F32)
        ensures
            r == self.neg_spec(),
    {
        F32 {
            bits: if self.bits >= SIGN32 {
                self.bits - SIGN32
            } else {
                self.bits + SIGN32
            },
        }
    }

    /// Significand and exponent of a finite number: `units == q * 2^e`.
    fn parts(self) -> (r: (u32, u32))
        requires
            self.finite(),
        ensures
            r.0 < 2 * FRAC32,
            r.1 == 0 || r.0 >= FRAC32,
            r.1 <= 253,
            self.units() == r.0 * pow2(r.1 as nat),
            r.0 > 0 <==> !self.zero(),
    {
        let c = self.code();
        let field: u32 = c / FRAC32;
        let low: u32 = c % FRAC32;
        proof {
            vstd::arithmetic::power2::lemma2_to64();
            vstd::arithmetic::div_mod::lemma_fundamental_div_mod(c as int, FRAC32 as int);
            assert(field < 255) by (nonlinear_arith)
                requires
                    c == FRAC32 * field + low,
                    c < 255 * FRAC32,
                    low >= 0,
            ;
        }
        if field == 0 {
            proof {
                assert(0 * pow2(23) == 0);
                crate::float_grid::lemma_grid_at(23, 0, low as nat);
            }
            (low, 0)
        } else {
            let e: u32 = field - 1;
            proof {
                assert(c == e * FRAC32 + (low + FRAC32)) by (nonlinear_arith)
                    requires
                        c == FRAC32 * field + low,
                        e == field - 1,
                ;
                crate::float_grid::lemma_grid_at(23, e as nat, (low + FRAC32) as nat);
            }
            (low + FRAC32, e)
        }
    }
}

/// Rounds to binary32: `round_scaled` at its parameters.
fn round_pack32(
    neg: bool,
    m: u128,
    k: i32,
    sticky: bool,
    num: Ghost<nat>,
    den: Ghost<nat>,
) -> (r: F32)
    requires
        0 < m < pow2(126),
        -2200 <= k <= 4000,
        den@ > 0,
        sticky ==> m >= pow2(25),
        scaled_value(m as nat, k as int, sticky, num@, den@),
    ensures
        r == pack32(neg, round32(num@, den@)),
        r.mag() == round32(num@, den@),
        r.mag() <= INF32,
        r.neg_bit() == neg,
{
    proof {
        vstd::arithmetic::power2::lemma2_to64();
        assert(255 * pow2(23) == INF32);
    }
    let b = round_scaled(23, 255, m, k, sticky, num, den);
    F32::pack(neg, b as u32)
}

proof fn lemma_round32_zero(den: nat)
    requires
        den > 0,
    ensures
        round32(0, den) == 0,
{
    vstd::arithmetic::power2::lemma_pow2_pos(23);
    assert(grid(23, 0) == 0);
    crate::float_grid::lemma_round_exact(23, INF32 as int, den, 0);
    assert(0 * den == 0);
}

/// The sum of two finite numbers, the one with the larger exponent first.
fn add_ordered32(a: F32, b: F32, qa: u32, ea: u32, qb: u32, eb: u32) -> (r: F32)
    requires
        a.finite(),
        b.finite(),
        a.units() == qa * pow2(ea as nat),
        b.units() == qb * pow2(eb as nat),
        qa < 2 * FRAC32,
        qb < 2 * FRAC32,
        ea == 0 || qa >= FRAC32,
        eb <= ea <= 253,
    ensures
        r == a.add_spec(b),
        r == b.add_spec(a),
{
    let na = a.negative();
    let nb = b.negative();
    if ea - eb <= 64 {
        let d: u32 = ea - eb;
        proof {
            crate::float_arith::lemma_shifted_bound(qa as nat, d as nat);
        }
        let x: u128 = (qa as u128) * two_to(d);
        let y: u128 = qb as u128;
        let (m, neg): (u128, bool) = if na == nb {
            (x + y, na)
        } else if x >= y {
            (x - y, na)
        } else {
            (y - x, nb)
        };
        let ghost w = (if na {
            -x
        } else {
            x as int
        }) + (if nb {
            -y
        } else {
            y as int
        });
        proof {
            lemma_near_sum(na, qa as nat, ea as nat, nb, qb as nat, eb as nat, w);
            assert(a.scaled() + b.scaled() == w * pow2(eb as nat));
        }
        if m == 0 {
            assert(w == 0);
            return F32::pack(na && nb, 0);
        }
        let ghost num = magnitude(w) * pow2(eb as nat);
        proof {
            vstd::arithmetic::power2::lemma2_to64();
            crate::rounding::lemma_pow2_126();
            assert(magnitude(w) == m);
            lemma_scaled_exact(m as nat, eb as int, num, 1, eb as nat, 0);
        }
        return round_pack32(neg, m, eb as i32, false, Ghost(num), Ghost(1));
    }
    if qb == 0 {
        proof {
            assert(b.units() == 0) by (nonlinear_arith)
                requires
                    b.units() == qb * pow2(eb as nat),
                    qb == 0,
            ;
            vstd::arithmetic::power2::lemma_pow2_pos(ea as nat);
            assert(qa * pow2(ea as nat) > 0) by (nonlinear_arith)
                requires
                    qa > 0,
                    pow2(ea as nat) > 0,
            ;
            crate::float_grid::lemma_round_exact(23, INF32 as int, 1, a.mag());
            assert(a.units() * 1 == a.units());
        }
        return a;
    }
    let minus = na != nb;
    let m: u128 = (qa as u128) * 1024 - if minus {
        1
    } else {
        0
    };
    let ghost total = (a.units() + (if minus {
        -b.units()
    } else {
        b.units() as int
    })) as nat;
    proof {
        lemma_far_sum(qa as nat, ea as nat, qb as nat, eb as nat, minus);
        vstd::arithmetic::power2::lemma2_to64();
        crate::rounding::lemma_pow2_126();
        let s = a.scaled() + b.scaled();
        assert(magnitude(s) == total);
        assert(s != 0 && (s < 0) == na);
    }
    round_pack32(na, m, ea as i32 - 10, true, Ghost(total), Ghost(1))
}

impl F32 {
    pub fn add(self, other: F32) -> (r: F32)
        ensures
            r == self.add_spec(other),
    {
        let ca = self.code();
        let cb = other.code();
        if ca > INF32 || cb > INF32 {
            return F32::pack(false, NAN32);
        }
        if ca == INF32 {
            if cb == INF32 && self.negative() != other.negative() {
                return F32::pack(false, NAN32);
            }
            return self;
        }
        if cb == INF32 {
            return other;
        }
        let (qa, ea) = self.parts();
        let (qb, eb) = other.parts();
        if ea >= eb {
            add_ordered32(self, other, qa, ea, qb, eb)
        } else {
            add_ordered32(other, self, qb, eb, qa, ea)
        }
    }

    pub fn sub(self, other: F32) -> (r: F32)
        ensures
            r == self.sub_spec(other),
    {
        self.add(other.neg())
    }

    pub fn mul(self, other: F32) -> (r: F32)
        ensures
            r == self.mul_spec(other),
    {
        let neg = self.negative() != other.negative();
        let ca = self.code();
        let cb = other.code();
        if ca > INF32 || cb > INF32 || (ca == INF32 && cb == 0) || (ca == 0 && cb == INF32) {
            return F32::pack(false, NAN32);
        }
        if ca == INF32 || cb == INF32 {
            return F32::pack(neg, INF32);
        }
        proof {
            vstd::arithmetic::power2::lemma_pow2_pos(149);
        }
        let (qa, ea) = self.parts();
        let (qb, eb) = other.parts();
        proof {
            lemma_units_product(qa as nat, ea as nat, qb as nat, eb as nat);
        }
        if ca == 0 || cb == 0 {
            proof {
                lemma_round32_zero(one32());
                assert(qa * qb == 0) by (nonlinear_arith)
                    requires
                        qa == 0 || qb == 0,
                ;
                assert((qa * qb) * pow2((ea + eb) as nat) == 0) by (nonlinear_arith)
                    requires
                        qa * qb == 0,
                ;
            }
            return F32::pack(neg, 0);
        }
        proof {
            crate::rounding::lemma_pow2_126();
            assert(0 < qa * qb < 0x1_0000_0000_0000) by (nonlinear_arith)
                requires
                    0 < qa < 0x100_0000,
                    0 < qb < 0x100_0000,
            ;
        }
        let m: u128 = (qa as u128) * (qb as u128);
        let k: i32 = ea as i32 + eb as i32 - 149;
        let ghost num = self.units() * other.units();
        proof {
            lemma_scaled_exact(m as nat, k as int, num, one32(), (ea + eb) as nat, 149);
        }
        round_pack32(neg, m, k, false, Ghost(num), Ghost(one32()))
    }

    /// The nearest binary32 number.
    pub fn from_f64(x: F64) -> (r: F32)
        ensures
            r == F32::of_f64(x),
    {
        if x.is_nan() {
            return F32::pack(false, NAN32);
        }
        let neg = x.negative();
        if !x.is_finite() {
            return F32::pack(neg, INF32);
        }
        let (q, e) = x.parts();
        proof {
            vstd::arithmetic::power2::lemma_pow2_pos(925);
        }
        if q == 0 {
            proof {
                assert(q * pow2(e as nat) == 0) by (nonlinear_arith)
                    requires
                        q == 0,
                ;
                lemma_round32_zero(pow2(925));
            }
            return F32::pack(neg, 0);
        }
        proof {
            crate::rounding::lemma_pow2_126();
            lemma_scaled_exact(q as nat, e - 925, x.units(), pow2(925), e as nat, 925);
        }
        round_pack32(neg, q as u128, e as i32 - 925, false, Ghost(x.units()), Ghost(pow2(925)))
    }

    /// Held between zero and one. NaN stays.
    pub open spec fn unit_spec(self) -> F32 {
        if self.flt(pack32(false, 0)) {
            pack32(false, 0)
        } else if pack32(false, 0x3F80_0000).flt(self) {
            pack32(false, 0x3F80_0000)
        } else {
            self
        }
    }

    pub fn clamp_unit(self) -> (r: F32)
        ensures
            r == self.unit_spec(),
    {
        let zero = F32::pack(false, 0);
        let one = F32::pack(false, 0x3F80_0000);
        if self.lt(zero) {
            zero
        } else if one.lt(self) {
            one
        } else {
            self
        }
    }
}

impl PartialEq for F32 {
    fn eq(&self, other: &F32) -> (r: bool) {
        F32::eq(*self, *other)
    }
}

impl vstd::std_specs::cmp::PartialEqSpecImpl for F32 {
    open spec fn obeys_eq_spec() -> bool {
        true
    }

    open spec fn eq_spec(&self, other: &F32) -> bool {
        self.feq(*other)
    }
}

}
