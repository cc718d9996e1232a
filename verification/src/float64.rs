//! IEEE 754 binary64 numbers, held as their bit pattern, with verified arithmetic.
//!
//! A finite number is an integer multiple of the smallest subnormal, 2^-1074. `scaled` is
//! that integer, and every operation is stated over it: compute exactly, then round to the
//! nearest code, ties to even.
use crate::float_grid::grid;
use crate::float_grid::round_code;
use vstd::arithmetic::power2::pow2;
use vstd::prelude::*;

verus! {

/// The sign bit.
pub const SIGN: u64 = 0x8000_0000_0000_0000;

/// The magnitude code of infinity. Larger codes are NaN.
pub const INF: u64 = 0x7FF0_0000_0000_0000;

/// The magnitude code of the NaN that arithmetic returns.
pub const NAN: u64 = 0x7FF8_0000_0000_0000;

/// `2^52`: the number of codes that share one spacing.
pub const FRAC: u64 = 0x10_0000_0000_0000;

/// A binary64 number.
#[derive(Clone, Copy, Debug)]
pub struct F64 {
    pub bits: u64,
}

/// The number with sign `neg` and magnitude code `code`.
pub open spec fn pack(neg: bool, code: int) -> F64 {
    F64 {
        bits: if neg {
            (code + SIGN) as u64
        } else {
            code as u64
        },
    }
}

/// The unit of the scaled integers: one is `2^1074` of them.
pub open spec fn one() -> nat {
    pow2(1074)
}

/// `a` without its sign, where the sign is known.
pub open spec fn magnitude(s: int) -> nat {
    if s < 0 {
        (-s) as nat
    } else {
        s as nat
    }
}

/// The code that `num / den` units round to.
pub open spec fn round64(num: nat, den: nat) -> int {
    round_code(52, INF as int, num, den)
}

/// The number nearest to the integer `i` times `2^1074` units, that is to `i`.
pub open spec fn of_int(i: int) -> F64 {
    pack(i < 0, round64(magnitude(i) * one(), 1))
}

/// `i` held to the range of `i64`.
pub open spec fn saturate(i: int) -> i64 {
    if i < i64::MIN {
        i64::MIN
    } else if i > i64::MAX {
        i64::MAX
    } else {
        i as i64
    }
}

impl F64 {
    pub open spec fn neg_bit(self) -> bool {
        self.bits >= SIGN
    }

    /// The magnitude code.
    pub open spec fn mag(self) -> int {
        if self.bits >= SIGN {
            self.bits - SIGN
        } else {
            self.bits as int
        }
    }

    pub open spec fn nan(self) -> bool {
        self.mag() > INF
    }

    pub open spec fn inf(self) -> bool {
        self.mag() == INF
    }

    pub open spec fn finite(self) -> bool {
        self.mag() < INF
    }

    pub open spec fn zero(self) -> bool {
        self.mag() == 0
    }

    /// The magnitude in units of `2^-1074`.
    pub open spec fn units(self) -> nat {
        grid(52, self.mag())
    }

    /// The number in units of `2^-1074`.
    pub open spec fn scaled(self) -> int {
        if self.neg_bit() {
            -self.units()
        } else {
            self.units() as int
        }
    }

    /// The place of a number that is no NaN in the order of all of them. Both zeros share one.
    pub open spec fn rank(self) -> int {
        if self.neg_bit() {
            -self.mag()
        } else {
            self.mag()
        }
    }

    /// IEEE equality: NaN equals nothing, and the zeros equal each other.
    pub open spec fn feq(self, other: F64) -> bool {
        !self.nan() && !other.nan() && self.rank() == other.rank()
    }

    /// IEEE less-than.
    pub open spec fn flt(self, other: F64) -> bool {
        !self.nan() && !other.nan() && self.rank() < other.rank()
    }

    /// IEEE less-or-equal.
    pub open spec fn fle(self, other: F64) -> bool {
        !self.nan() && !other.nan() && self.rank() <= other.rank()
    }

    pub open spec fn neg_spec(self) -> F64 {
        F64 {
            bits: if self.bits >= SIGN {
                (self.bits - SIGN) as u64
            } else {
                (self.bits + SIGN) as u64
            },
        }
    }

    pub open spec fn abs_spec(self) -> F64 {
        pack(false, self.mag())
    }

    pub open spec fn add_spec(self, other: F64) -> F64 {
        if self.nan() || other.nan() {
            pack(false, NAN as int)
        } else if self.inf() {
            if other.inf() && self.neg_bit() != other.neg_bit() {
                pack(false, NAN as int)
            } else {
                self
            }
        } else if other.inf() {
            other
        } else {
            let s = self.scaled() + other.scaled();
            if s == 0 {
                pack(self.neg_bit() && other.neg_bit(), 0)
            } else {
                pack(s < 0, round64(magnitude(s), 1))
            }
        }
    }

    pub open spec fn sub_spec(self, other: F64) -> F64 {
        self.add_spec(other.neg_spec())
    }

    pub open spec fn mul_spec(self, other: F64) -> F64 {
        let neg = self.neg_bit() != other.neg_bit();
        if self.nan() || other.nan() || (self.inf() && other.zero()) || (self.zero()
            && other.inf()) {
            pack(false, NAN as int)
        } else if self.inf() || other.inf() {
            pack(neg, INF as int)
        } else {
            pack(neg, round64(self.units() * other.units(), one()))
        }
    }

    pub open spec fn div_spec(self, other: F64) -> F64 {
        let neg = self.neg_bit() != other.neg_bit();
        if self.nan() || other.nan() || (self.inf() && other.inf()) || (self.zero()
            && other.zero()) {
            pack(false, NAN as int)
        } else if self.inf() || other.zero() {
            pack(neg, INF as int)
        } else if other.inf() {
            pack(neg, 0)
        } else {
            pack(neg, round64(self.units() * one(), other.units()))
        }
    }

    /// The integer part as an `i64`, held to its range. NaN gives zero.
    pub open spec fn trunc_spec(self) -> i64 {
        if self.nan() {
            0
        } else if self.neg_bit() {
            saturate(-(self.units() / one()))
        } else {
            saturate((self.units() / one()) as int)
        }
    }

    /// The number has no fractional part. Neither NaN nor an infinity counts.
    pub open spec fn integral(self) -> bool {
        self.finite() && self.units() % one() == 0
    }

    pub fn negative(self) -> (r: bool)
        ensures
            r == self.neg_bit(),
    {
        self.bits >= SIGN
    }

    pub fn code(self) -> (r: u64)
        ensures
            r == self.mag(),
            r < SIGN,
    {
        if self.bits >= SIGN {
            self.bits - SIGN
        } else {
            self.bits
        }
    }

    pub fn pack(neg: bool, code: u64) -> (r: F64)
        requires
            code < SIGN,
        ensures
            r == pack(neg, code as int),
            r.mag() == code,
            r.neg_bit() == neg,
    {
        F64 {
            bits: if neg {
                code + SIGN
            } else {
                code
            },
        }
    }

    pub fn is_nan(self) -> (r: bool)
        ensures
            r == self.nan(),
    {
        self.code() > INF
    }

    pub fn is_finite(self) -> (r: bool)
        ensures
            r == self.finite(),
    {
        self.code() < INF
    }

    pub fn eq(self, other: F64) -> (r: bool)
        ensures
            r == self.feq(other),
    {
        let a = self.code();
        let b = other.code();
        a <= INF && b <= INF && (self.bits == other.bits || (a == 0 && b == 0))
    }

    pub fn lt(self, other: F64) -> (r: bool)
        ensures
            r == self.flt(other),
    {
        let a = self.code();
        let b = other.code();
        if a > INF || b > INF {
            false
        } else if self.negative() {
            if other.negative() {
                a > b
            } else {
                a > 0 || b > 0
            }
        } else {
            !other.negative() && a < b
        }
    }

    pub fn le(self, other: F64) -> (r: bool)
        ensures
            r == self.fle(other),
    {
        self.lt(other) || self.eq(other)
    }

    pub fn neg(self) -> (r: F64)
        ensures
            r == self.neg_spec(),
    {
        F64 {
            bits: if self.bits >= SIGN {
                self.bits - SIGN
            } else {
                self.bits + SIGN
            },
        }
    }

    pub fn abs(self) -> (r: F64)
        ensures
            r == self.abs_spec(),
    {
        F64::pack(false, self.code())
    }

    /// Significand and exponent of a finite number: `units == q * 2^e`.
    pub(crate) fn parts(self) -> (r: (u64, u32))
        requires
            self.finite(),
        ensures
            self.mag() == r.1 * pow2(52) + r.0,
            r.0 < 2 * FRAC,
            r.1 == 0 || r.0 >= FRAC,
            r.1 <= 2045,
            self.units() == r.0 * pow2(r.1 as nat),
            pow2(52) == FRAC,
    {
        let c = self.code();
        let field: u64 = c / FRAC;
        let low: u64 = c % FRAC;
        proof {
            vstd::arithmetic::power2::lemma2_to64_rest();
            vstd::arithmetic::div_mod::lemma_fundamental_div_mod(c as int, FRAC as int);
            assert(field < 2047) by (nonlinear_arith)
                requires
                    c == FRAC * field + low,
                    c < 2047 * FRAC,
                    low >= 0,
            ;
        }
        if field == 0 {
            proof {
                assert(0 * pow2(52) == 0);
                crate::float_grid::lemma_grid_at(52, 0, low as nat);
            }
            (low, 0)
        } else {
            let e: u32 = (field - 1) as u32;
            proof {
                assert(c == e * FRAC + (low + FRAC)) by (nonlinear_arith)
                    requires
                        c == FRAC * field + low,
                        e == field - 1,
                ;
                crate::float_grid::lemma_grid_at(52, e as nat, (low + FRAC) as nat);
            }
            (low + FRAC, e)
        }
    }
}

impl PartialEq for F64 {
    fn eq(&self, other: &F64) -> (r: bool) {
        F64::eq(*self, *other)
    }
}

impl vstd::std_specs::cmp::PartialEqSpecImpl for F64 {
    open spec fn obeys_eq_spec() -> bool {
        true
    }

    open spec fn eq_spec(&self, other: &F64) -> bool {
        self.feq(*other)
    }
}

}
