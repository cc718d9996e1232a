//! Arithmetic on binary64 numbers.
use crate::float64::magnitude;
use crate::float64::of_int;
use crate::float64::one;
use crate::float64::pack;
use crate::float64::round64;
use crate::float64::saturate;
use crate::float64::F64;
use crate::float64::FRAC;
use crate::float64::INF;
use crate::float64::NAN;
use crate::float64::SIGN;
use crate::float_grid::grid;
use crate::rounding::bias;
use crate::rounding::bit_len;
use crate::rounding::round_scaled;
use crate::rounding::scaled_value;
use crate::rounding::two_to;
use vstd::arithmetic::power2::pow2;
use vstd::prelude::*;

verus! {

/// Rounds to binary64: `round_scaled` at its parameters.
fn round_pack(neg: bool, m: u128, k: i32, sticky: bool, num: Ghost<nat>, den: Ghost<nat>) -> (r: F64)
    requires
        0 < m < pow2(126),
        -2200 <= k <= 4000,
        den@ > 0,
        sticky ==> m >= pow2(54),
        scaled_value(m as nat, k as int, sticky, num@, den@),
    ensures
        r == pack(neg, round64(num@, den@)),
        0 <= round64(num@, den@) <= INF,
        r.mag() == round64(num@, den@),
        r.neg_bit() == neg,
{
    proof {
        vstd::arithmetic::power2::lemma2_to64_rest();
        assert(2047 * pow2(52) == INF);
    }
    let b = round_scaled(52, 2047, m, k, sticky, num, den);
    F64::pack(neg, b)
}

/// Zero rounds to the zero code.
pub proof fn lemma_round_zero(den: nat)
    requires
        den > 0,
    ensures
        round64(0, den) == 0,
{
    vstd::arithmetic::power2::lemma_pow2_pos(52);
    assert(grid(52, 0) == 0);
    crate::float_grid::lemma_round_exact(52, INF as int, den, 0);
    assert(0 * den == 0);
}

/// The code of a rounded value is a finite one or infinity.
pub proof fn lemma_units_zero(x: F64)
    ensures
        x.units() == 0 <==> x.zero(),
{
    vstd::arithmetic::power2::lemma_pow2_pos(52);
    assert(grid(52, 0) == 0);
    if x.mag() > 0 {
        crate::float_grid::lemma_grid_increases(52, 0, x.mag());
    }
}

/// An exact product of a significand and a power of two is a scaled value.
pub proof fn lemma_scaled_exact(m: nat, k: int, num: nat, den: nat, e: nat, d: nat)
    requires
        num == m * pow2(e),
        den == pow2(d),
        k == e - d,
        k + bias() >= 0,
    ensures
        scaled_value(m, k, false, num, den),
{
    let kb = (k + bias()) as nat;
    vstd::arithmetic::power2::lemma_pow2_adds(e, bias());
    vstd::arithmetic::power2::lemma_pow2_adds(d, kb);
    assert((m * pow2(e)) * pow2(bias()) == m * (pow2(e) * pow2(bias()))) by (nonlinear_arith);
}

/// A positive quotient of significands, scaled up by `2^s`.
proof fn lemma_scaled_quotient(qa: nat, ea: nat, qb: nat, eb: nat, s: nat, m: nat, r: nat)
    requires
        qb > 0,
        qa * pow2(s) == m * qb + r,
        r < qb,
        ea + 1074 + bias() >= s,
        ea + 1074 - s - eb + bias() >= 0,
    ensures
        scaled_value(
            m,
            ea + 1074 - s - eb,
            r > 0,
            (qa * pow2(ea)) * pow2(1074),
            qb * pow2(eb),
        ),
{
    let k = ea + 1074 - s - eb;
    let kb = (k + bias()) as nat;
    let w = (ea + 1074 + bias() - s) as nat;
    let num = (qa * pow2(ea)) * pow2(1074);
    let den = qb * pow2(eb);
    vstd::arithmetic::power2::lemma_pow2_adds(ea, 1074);
    vstd::arithmetic::power2::lemma_pow2_adds(ea + 1074, bias());
    vstd::arithmetic::power2::lemma_pow2_adds(s, w);
    vstd::arithmetic::power2::lemma_pow2_adds(eb, kb);
    vstd::arithmetic::power2::lemma_pow2_pos(w);
    let z = pow2(w);
    assert(num * pow2(bias()) == qa * (pow2(ea) * pow2(1074) * pow2(bias()))) by (nonlinear_arith)
        requires
            num == (qa * pow2(ea)) * pow2(1074),
    ;
    assert(num * pow2(bias()) == (m * qb + r) * z) by (nonlinear_arith)
        requires
            num * pow2(bias()) == qa * (pow2(s) * z),
            qa * pow2(s) == m * qb + r,
    ;
    assert(den * pow2(kb) == qb * z) by (nonlinear_arith)
        requires
            den == qb * pow2(eb),
            z == pow2(eb) * pow2(kb),
    ;
    assert((m * qb + r) * z == m * (qb * z) + r * z) by (nonlinear_arith);
    assert((m + 1) * (qb * z) == m * (qb * z) + qb * z) by (nonlinear_arith);
    assert(r * z < qb * z) by (nonlinear_arith)
        requires
            r < qb,
            z > 0,
    ;
    assert(r > 0 ==> r * z > 0) by (nonlinear_arith)
        requires
            z > 0,
    ;
    if r == 0 {
        assert(r * z == 0) by (nonlinear_arith)
            requires
                r == 0,
        ;
    }
}

/// A product of two significands stays below `2^106`.
proof fn lemma_product_bound(a: u64, b: u64)
    requires
        a < 2 * FRAC,
        b < 2 * FRAC,
    ensures
        a * b < 0x4_0000_0000_0000_0000_0000_0000_00,
        a * b < pow2(126),
{
    crate::rounding::lemma_pow2_126();
    assert(a * b < 0x4_0000_0000_0000_0000_0000_0000_00) by (nonlinear_arith)
        requires
            a < 0x20_0000_0000_0000,
            b < 0x20_0000_0000_0000,
    ;
}

/// The product of two numbers in units, from their parts.
pub proof fn lemma_units_product(qa: nat, ea: nat, qb: nat, eb: nat)
    ensures
        (qa * pow2(ea)) * (qb * pow2(eb)) == (qa * qb) * pow2(ea + eb),
{
    vstd::arithmetic::power2::lemma_pow2_adds(ea, eb);
    assert((qa * pow2(ea)) * (qb * pow2(eb)) == (qa * qb) * (pow2(ea) * pow2(eb)))
        by (nonlinear_arith);
}

impl F64 {
    pub fn mul(self, other: F64) -> (r: F64)
        ensures
            r == self.mul_spec(other),
    {
        let neg = self.negative() != other.negative();
        let ca = self.code();
        let cb = other.code();
        if ca > INF || cb > INF || (ca == INF && cb == 0) || (ca == 0 && cb == INF) {
            return F64::pack(false, NAN);
        }
        if ca == INF || cb == INF {
            return F64::pack(neg, INF);
        }
        proof {
            lemma_units_zero(self);
            lemma_units_zero(other);
            vstd::arithmetic::power2::lemma_pow2_pos(1074);
        }
        if ca == 0 || cb == 0 {
            proof {
                lemma_round_zero(one());
                assert(self.units() * other.units() == 0) by (nonlinear_arith)
                    requires
                        self.units() == 0 || other.units() == 0,
                ;
            }
            return F64::pack(neg, 0);
        }
        let (qa, ea) = self.parts();
        let (qb, eb) = other.parts();
        proof {
            lemma_product_bound(qa, qb);
            lemma_units_product(qa as nat, ea as nat, qb as nat, eb as nat);
            assert(qa > 0) by {
                if qa == 0 {
                    assert(qa * pow2(ea as nat) == 0) by (nonlinear_arith)
                        requires
                            qa == 0,
                    ;
                }
            }
            assert(qb > 0) by {
                if qb == 0 {
                    assert(qb * pow2(eb as nat) == 0) by (nonlinear_arith)
                        requires
                            qb == 0,
                    ;
                }
            }
            assert(qa * qb > 0) by (nonlinear_arith)
                requires
                    qa > 0,
                    qb > 0,
            ;
        }
        let m: u128 = (qa as u128) * (qb as u128);
        let k: i32 = ea as i32 + eb as i32 - 1074;
        let ghost num = self.units() * other.units();
        proof {
            lemma_scaled_exact(m as nat, k as int, num, one(), (ea + eb) as nat, 1074);
        }
        round_pack(neg, m, k, false, Ghost(num), Ghost(one()))
    }

    pub fn div(self, other: F64) -> (r: F64)
        ensures
            r == self.div_spec(other),
    {
        let neg = self.negative() != other.negative();
        let ca = self.code();
        let cb = other.code();
        if ca > INF || cb > INF || (ca == INF && cb == INF) || (ca == 0 && cb == 0) {
            return F64::pack(false, NAN);
        }
        if ca == INF || cb == 0 {
            return F64::pack(neg, INF);
        }
        if cb == INF {
            return F64::pack(neg, 0);
        }
        proof {
            lemma_units_zero(self);
            lemma_units_zero(other);
            vstd::arithmetic::power2::lemma_pow2_pos(1074);
        }
        if ca == 0 {
            proof {
                lemma_round_zero(other.units());
                assert(self.units() * one() == 0) by (nonlinear_arith)
                    requires
                        self.units() == 0,
                ;
            }
            return F64::pack(neg, 0);
        }
        let (qa, ea) = self.parts();
        let (qb, eb) = other.parts();
        proof {
            crate::rounding::lemma_pow2_126();
            assert(qa > 0) by {
                if qa == 0 {
                    assert(qa * pow2(ea as nat) == 0) by (nonlinear_arith)
                        requires
                            qa == 0,
                    ;
                }
            }
            assert(qb > 0) by {
                if qb == 0 {
                    assert(qb * pow2(eb as nat) == 0) by (nonlinear_arith)
                        requires
                            qb == 0,
                    ;
                }
            }
        }
        let l = bit_len(qa as u128);
        proof {
            lemma_bit_len_bound(qa as nat, l as nat);
        }
        let s: u32 = 109 - l;
        proof {
            lemma_normalized(qa as nat, l as nat);
        }
        let n: u128 = (qa as u128) * two_to(s);
        let m: u128 = n / (qb as u128);
        let rem: u128 = n % (qb as u128);
        proof {
            vstd::arithmetic::div_mod::lemma_fundamental_div_mod(n as int, qb as int);
            vstd::arithmetic::div_mod::lemma_mod_bound(n as int, qb as int);
            assert(qb * m == m * qb) by (nonlinear_arith);
            lemma_quotient_bounds(n as nat, qb as nat, m as nat, rem as nat);
            lemma_scaled_quotient(
                qa as nat,
                ea as nat,
                qb as nat,
                eb as nat,
                s as nat,
                m as nat,
                rem as nat,
            );
        }
        let k: i32 = ea as i32 + 1074 - s as i32 - eb as i32;
        round_pack(
            neg,
            m,
            k,
            rem > 0,
            Ghost(self.units() * one()),
            Ghost(other.units()),
        )
    }
}

pub proof fn lemma_bit_len_bound(q: nat, l: nat)
    requires
        q < 2 * FRAC,
        l >= 1,
        pow2((l - 1) as nat) <= q,
    ensures
        l <= 53,
{
    vstd::arithmetic::power2::lemma2_to64_rest();
    if l > 53 {
        if l > 54 {
            vstd::arithmetic::power2::lemma_pow2_strictly_increases(53, (l - 1) as nat);
        }
    }
}

proof fn lemma_normalized(q: nat, l: nat)
    requires
        1 <= l <= 53,
        pow2((l - 1) as nat) <= q < pow2(l),
    ensures
        pow2(108) <= q * pow2((109 - l) as nat) < pow2(109),
        pow2(109) < pow2(126),
{
    let s = (109 - l) as nat;
    let lm = (l - 1) as nat;
    vstd::arithmetic::power2::lemma_pow2_adds(lm, s);
    vstd::arithmetic::power2::lemma_pow2_adds(l, s);
    vstd::arithmetic::power2::lemma_pow2_pos(s);
    vstd::arithmetic::power2::lemma_pow2_strictly_increases(109, 126);
    assert(pow2(lm) * pow2(s) <= q * pow2(s) < pow2(l) * pow2(s)) by (nonlinear_arith)
        requires
            pow2(lm) <= q < pow2(l),
            pow2(s) > 0,
    ;
}

proof fn lemma_quotient_bounds(n: nat, qb: nat, m: nat, rem: nat)
    requires
        n == m * qb + rem,
        rem < qb,
        0 < qb < 2 * FRAC,
        pow2(108) <= n < pow2(109),
    ensures
        0 < m < pow2(126),
        m >= pow2(54),
{
    vstd::arithmetic::power2::lemma2_to64_rest();
    vstd::arithmetic::power2::lemma_pow2_adds(54, 54);
    vstd::arithmetic::power2::lemma_pow2_strictly_increases(109, 126);
    assert(m >= pow2(54)) by (nonlinear_arith)
        requires
            m * qb + rem >= pow2(54) * pow2(54),
            rem < qb,
            qb < pow2(54),
            pow2(54) > 0,
    ;
    assert(m <= n) by (nonlinear_arith)
        requires
            n == m * qb + rem,
            qb >= 1,
            rem >= 0,
            m >= 0,
    ;
}

/// The value of a sum of two magnitudes whose exponents lie close together.
pub proof fn lemma_near_sum(na: bool, qa: nat, ea: nat, nb: bool, qb: nat, eb: nat, w: int)
    requires
        eb <= ea,
        w == (if na {
            -(qa * pow2((ea - eb) as nat))
        } else {
            (qa * pow2((ea - eb) as nat)) as int
        }) + (if nb {
            -qb
        } else {
            qb as int
        }),
    ensures
        (if na {
            -(qa * pow2(ea))
        } else {
            (qa * pow2(ea)) as int
        }) + (if nb {
            -(qb * pow2(eb))
        } else {
            (qb * pow2(eb)) as int
        }) == w * pow2(eb),
        magnitude(w) * pow2(eb) == magnitude(w * pow2(eb)),
        w == 0 <==> w * pow2(eb) == 0,
        w < 0 <==> w * pow2(eb) < 0,
{
    let d = (ea - eb) as nat;
    vstd::arithmetic::power2::lemma_pow2_adds(d, eb);
    vstd::arithmetic::power2::lemma_pow2_pos(eb);
    let z = pow2(eb) as int;
    let x = (qa * pow2(d)) as int;
    let y = qb as int;
    assert(qa * pow2(ea) == x * z) by (nonlinear_arith)
        requires
            pow2(ea) == pow2(d) * z,
            x == qa * pow2(d),
    ;
    let sx = if na {
        -x
    } else {
        x
    };
    let sy = if nb {
        -y
    } else {
        y
    };
    assert(-(x * z) == (-x) * z) by (nonlinear_arith);
    assert(-(y * z) == (-y) * z) by (nonlinear_arith);
    assert(sx * z + sy * z == (sx + sy) * z) by (nonlinear_arith);
    assert(-(w * z) == (-w) * z) by (nonlinear_arith);
    assert(w < 0 ==> w * z < 0) by (nonlinear_arith)
        requires
            z > 0,
    ;
    assert(w > 0 ==> w * z > 0) by (nonlinear_arith)
        requires
            z > 0,
    ;
    assert(w == 0 ==> w * z == 0) by (nonlinear_arith);
}

/// A sum whose second magnitude lies far below the first is one unit of `2^(ea - 10)` away
/// from it at most.
pub proof fn lemma_far_sum(qa: nat, ea: nat, qb: nat, eb: nat, minus: bool)
    requires
        ea > eb + 64,
        0 < qb < 2 * FRAC,
        1 <= qa,
    ensures
        ({
            let m = (qa * 1024 - (if minus {
                1int
            } else {
                0int
            })) as nat;
            let total = qa * pow2(ea) + (if minus {
                -(qb * pow2(eb))
            } else {
                (qb * pow2(eb)) as int
            });
            &&& total > 0
            &&& scaled_value(m, ea - 10, true, total as nat, 1)
        }),
{
    let k = (ea - 10) as nat;
    let kb = k + bias();
    let m = (qa * 1024 - (if minus {
        1int
    } else {
        0int
    })) as nat;
    let low = qb * pow2(eb);
    let total = qa * pow2(ea) + (if minus {
        -low
    } else {
        low as int
    });
    vstd::arithmetic::power2::lemma2_to64();
    vstd::arithmetic::power2::lemma2_to64_rest();
    vstd::arithmetic::power2::lemma_pow2_adds(10, k);
    vstd::arithmetic::power2::lemma_pow2_adds(54, eb);
    vstd::arithmetic::power2::lemma_pow2_strictly_increases(54 + eb, k);
    vstd::arithmetic::power2::lemma_pow2_pos(eb);
    vstd::arithmetic::power2::lemma_pow2_pos(k);
    vstd::arithmetic::power2::lemma_pow2_pos(bias());
    vstd::arithmetic::power2::lemma_pow2_adds(k, bias());
    let z = pow2(k) as int;
    assert(qa * pow2(ea) == (qa * 1024) * z) by (nonlinear_arith)
        requires
            pow2(ea) == 1024 * z,
    ;
    assert(0 < low < z) by (nonlinear_arith)
        requires
            low == qb * pow2(eb),
            0 < qb < 0x40_0000_0000_0000,
            pow2(eb) > 0,
            0x40_0000_0000_0000 * pow2(eb) < z,
    ;
    let t = qa * 1024;
    assert((t - 1) * z == t * z - z) by (nonlinear_arith);
    assert((t + 1) * z == t * z + z) by (nonlinear_arith);
    assert(m * z < total < (m + 1) * z);
    assert(m * z >= 0) by (nonlinear_arith)
        requires
            z > 0,
            m >= 0,
    ;
    let pb = pow2(bias()) as int;
    let c = 1 * pow2(kb);
    assert(c == z * pb);
    assert(m * c == (m * z) * pb) by (nonlinear_arith)
        requires
            c == z * pb,
    ;
    assert((m + 1) * c == ((m + 1) * z) * pb) by (nonlinear_arith)
        requires
            c == z * pb,
    ;
    assert((m * z) * pb < total * pb < ((m + 1) * z) * pb) by (nonlinear_arith)
        requires
            m * z < total < (m + 1) * z,
            pb > 0,
    ;
}

/// The sum of two finite numbers, the one with the larger exponent first.
fn add_ordered(
    a: F64,
    b: F64,
    qa: u64,
    ea: u32,
    qb: u64,
    eb: u32,
) -> (r: F64)
    requires
        a.finite(),
        b.finite(),
        a.units() == qa * pow2(ea as nat),
        b.units() == qb * pow2(eb as nat),
        qa < 2 * FRAC,
        qb < 2 * FRAC,
        ea == 0 || qa >= FRAC,
        eb <= ea <= 2045,
    ensures
        r == a.add_spec(b),
        r == b.add_spec(a),
{
    let na = a.negative();
    let nb = b.negative();
    if ea - eb <= 64 {
        let d: u32 = ea - eb;
        proof {
            lemma_shifted_bound(qa as nat, d as nat);
        }
        let x: u128 = (qa as u128) * two_to(d);
        let y: u128 = qb as u128;
        let (m, neg): (u128, bool) = if na == nb {
            (x + y, na)
        } else if x >= y {
            (x - y, na)
        } else {
            (y - x, nb)
        };
        let ghost w = (if na {
            -x
        } else {
            x as int
        }) + (if nb {
            -y
        } else {
            y as int
        });
        proof {
            lemma_near_sum(na, qa as nat, ea as nat, nb, qb as nat, eb as nat, w);
            assert(a.scaled() + b.scaled() == w * pow2(eb as nat));
        }
        if m == 0 {
            assert(w == 0);
            return F64::pack(na && nb, 0);
        }
        let ghost num = magnitude(w) * pow2(eb as nat);
        proof {
            vstd::arithmetic::power2::lemma2_to64();
            crate::rounding::lemma_pow2_126();
            assert(magnitude(w) == m);
            lemma_scaled_exact(m as nat, eb as int, num, 1, eb as nat, 0);
        }
        return round_pack(neg, m, eb as i32, false, Ghost(num), Ghost(1));
    }
    if qb == 0 {
        proof {
            assert(b.units() == 0) by (nonlinear_arith)
                requires
                    b.units() == qb * pow2(eb as nat),
                    qb == 0,
            ;
            lemma_units_zero(a);
            vstd::arithmetic::power2::lemma_pow2_pos(ea as nat);
            assert(qa * pow2(ea as nat) > 0) by (nonlinear_arith)
                requires
                    qa > 0,
                    pow2(ea as nat) > 0,
            ;
            crate::float_grid::lemma_round_exact(52, INF as int, 1, a.mag());
            assert(a.units() * 1 == a.units());
        }
        return a;
    }
    let minus = na != nb;
    let m: u128 = (qa as u128) * 1024 - if minus {
        1
    } else {
        0
    };
    let ghost total = (a.units() + (if minus {
        -b.units()
    } else {
        b.units() as int
    })) as nat;
    proof {
        lemma_far_sum(qa as nat, ea as nat, qb as nat, eb as nat, minus);
        vstd::arithmetic::power2::lemma2_to64_rest();
        crate::rounding::lemma_pow2_126();
        let s = a.scaled() + b.scaled();
        assert(magnitude(s) == total);
        assert(s != 0 && (s < 0) == na);
    }
    round_pack(na, m, ea as i32 - 10, true, Ghost(total), Ghost(1))
}

pub proof fn lemma_shifted_bound(q: nat, d: nat)
    requires
        q < 2 * FRAC,
        d <= 64,
    ensures
        q * pow2(d) < 0x20_0000_0000_0000_0000_0000_0000_0000,
{
    vstd::arithmetic::power2::lemma2_to64_rest();
    if d < 64 {
        vstd::arithmetic::power2::lemma_pow2_strictly_increases(d, 64);
    }
    assert(q * pow2(d) < 0x20_0000_0000_0000_0000_0000_0000_0000) by (nonlinear_arith)
        requires
            q < 0x20_0000_0000_0000,
            pow2(d) <= 0x1_0000_0000_0000_0000,
    ;
}

impl F64 {
    pub fn add(self, other: F64) -> (r: F64)
        ensures
            r == self.add_spec(other),
    {
        let ca = self.code();
        let cb = other.code();
        if ca > INF || cb > INF {
            return F64::pack(false, NAN);
        }
        if ca == INF {
            if cb == INF && self.negative() != other.negative() {
                return F64::pack(false, NAN);
            }
            return self;
        }
        if cb == INF {
            return other;
        }
        let (qa, ea) = self.parts();
        let (qb, eb) = other.parts();
        if ea >= eb {
            add_ordered(self, other, qa, ea, qb, eb)
        } else {
            add_ordered(other, self, qb, eb, qa, ea)
        }
    }

    pub fn sub(self, other: F64) -> (r: F64)
        ensures
            r == self.sub_spec(other),
    {
        self.add(other.neg())
    }

    /// The number nearest to `i`.
    pub fn from_i64(i: i64) -> (r: F64)
        ensures
            r == of_int(i as int),
    {
        let neg = i < 0;
        let m: u128 = if i < 0 {
            (0 - i as i128) as u128
        } else {
            i as u128
        };
        let ghost num = magnitude(i as int) * one();
        if m == 0 {
            proof {
                assert(num == 0) by (nonlinear_arith)
                    requires
                        num == magnitude(i as int) * one(),
                        magnitude(i as int) == 0,
                ;
                lemma_round_zero(1);
            }
            return F64::pack(false, 0);
        }
        proof {
            vstd::arithmetic::power2::lemma2_to64();
            crate::rounding::lemma_pow2_126();
            lemma_scaled_exact(m as nat, 1074, num, 1, 1074, 0);
        }
        round_pack(neg, m, 1074, false, Ghost(num), Ghost(1))
    }
}

/// Whole and fractional part of `q * 2^e` units.
proof fn lemma_whole(q: nat, e: nat)
    ensures
        e >= 1074 ==> (q * pow2(e)) / one() == q * pow2((e - 1074) as nat) && (q * pow2(e)) % one()
            == 0,
        e < 1074 ==> (q * pow2(e)) / one() == q / pow2((1074 - e) as nat) && ((q * pow2(e)) % one()
            == 0 <==> q % pow2((1074 - e) as nat) == 0),
{
    let u = q * pow2(e);
    vstd::arithmetic::power2::lemma_pow2_pos(1074);
    if e >= 1074 {
        let d = (e - 1074) as nat;
        vstd::arithmetic::power2::lemma_pow2_adds(d, 1074);
        assert(u == (q * pow2(d)) * one() + 0) by (nonlinear_arith)
            requires
                u == q * pow2(e),
                pow2(e) == pow2(d) * one(),
        ;
        vstd::arithmetic::div_mod::lemma_fundamental_div_mod_converse(
            u as int,
            one() as int,
            (q * pow2(d)) as int,
            0,
        );
    } else {
        let d = (1074 - e) as nat;
        vstd::arithmetic::power2::lemma_pow2_adds(d, e);
        vstd::arithmetic::power2::lemma_pow2_pos(d);
        vstd::arithmetic::power2::lemma_pow2_pos(e);
        let z = pow2(e) as int;
        let w = q / pow2(d);
        let r = q % pow2(d);
        vstd::arithmetic::div_mod::lemma_fundamental_div_mod(q as int, pow2(d) as int);
        vstd::arithmetic::div_mod::lemma_mod_bound(q as int, pow2(d) as int);
        assert(u == w * one() + r * z) by (nonlinear_arith)
            requires
                u == q * z,
                q == pow2(d) * w + r,
                one() == pow2(d) * z,
        ;
        assert(0 <= r * z < one()) by (nonlinear_arith)
            requires
                0 <= r < pow2(d),
                z > 0,
                one() == pow2(d) * z,
        ;
        vstd::arithmetic::div_mod::lemma_fundamental_div_mod_converse(
            u as int,
            one() as int,
            w as int,
            r * z,
        );
        assert(r * z == 0 <==> r == 0) by (nonlinear_arith)
            requires
                z > 0,
        ;
    }
}

/// Shifts at both ends of the range of `i64`.
proof fn lemma_whole_ends(q: nat, d: nat)
    requires
        q < 2 * FRAC,
    ensures
        d >= 64 ==> q / pow2(d) == 0 && (q % pow2(d) == 0 <==> q == 0),
        d >= 11 && q >= FRAC ==> q * pow2(d) >= 0x8000_0000_0000_0000,
        d <= 10 ==> q * pow2(d) < 0x8000_0000_0000_0000,
{
    vstd::arithmetic::power2::lemma2_to64();
    vstd::arithmetic::power2::lemma2_to64_rest();
    vstd::arithmetic::power2::lemma_pow2_pos(d);
    if d >= 64 {
        if d > 64 {
            vstd::arithmetic::power2::lemma_pow2_strictly_increases(64, d);
        }
        vstd::arithmetic::div_mod::lemma_small_mod(q, pow2(d));
        vstd::arithmetic::div_mod::lemma_basic_div(q as int, pow2(d) as int);
    }
    if d >= 11 && q >= FRAC {
        if d > 11 {
            vstd::arithmetic::power2::lemma_pow2_strictly_increases(11, d);
        }
        assert(q * pow2(d) >= 0x8000_0000_0000_0000) by (nonlinear_arith)
            requires
                q >= 0x10_0000_0000_0000,
                pow2(d) >= 2048,
        ;
    }
    if d <= 10 {
        if d < 10 {
            vstd::arithmetic::power2::lemma_pow2_strictly_increases(d, 10);
        }
        assert(q * pow2(d) < 0x8000_0000_0000_0000) by (nonlinear_arith)
            requires
                q < 0x20_0000_0000_0000,
                pow2(d) <= 1024,
        ;
    }
}

impl F64 {
    /// The whole part of a finite magnitude, held to `2^63`, and whether nothing is left.
    fn whole(self) -> (r: (u64, bool))
        requires
            self.finite(),
        ensures
            r.1 == self.integral(),
            self.units() / one() < 0x8000_0000_0000_0000 ==> r.0 == self.units() / one(),
            self.units() / one() >= 0x8000_0000_0000_0000 ==> r.0 == 0x8000_0000_0000_0000u64 && r.1,
    {
        let (q, e) = self.parts();
        proof {
            lemma_whole(q as nat, e as nat);
        }
        if e >= 1074 {
            let d: u32 = e - 1074;
            proof {
                lemma_whole_ends(q as nat, d as nat);
            }
            if d >= 11 {
                (0x8000_0000_0000_0000, true)
            } else {
                (((q as u128) * two_to(d)) as u64, true)
            }
        } else {
            let d: u32 = 1074 - e;
            proof {
                lemma_whole_ends(q as nat, d as nat);
            }
            if d >= 64 {
                (0, q == 0)
            } else {
                let p = two_to(d);
                proof {
                    vstd::arithmetic::power2::lemma_pow2_pos(d as nat);
                    vstd::arithmetic::div_mod::lemma_div_is_ordered_by_denominator(
                        q as int,
                        1,
                        p as int,
                    );
                }
                (((q as u128) / p) as u64, (q as u128) % p == 0)
            }
        }
    }

    /// The integer part as an `i64`, held to its range. NaN gives zero.
    pub fn trunc_i64(self) -> (r: i64)
        ensures
            r == self.trunc_spec(),
    {
        if self.is_nan() {
            return 0;
        }
        if !self.is_finite() {
            proof {
                lemma_units_inf(self);
            }
            return if self.negative() {
                i64::MIN
            } else {
                i64::MAX
            };
        }
        let (w, _) = self.whole();
        if w >= SIGN {
            if self.negative() {
                i64::MIN
            } else {
                i64::MAX
            }
        } else if self.negative() {
            0 - w as i64
        } else {
            w as i64
        }
    }

    /// The largest integer that is not above a finite number, held to the range of `i64`.
    pub fn floor_i64(self) -> (r: i64)
        requires
            self.finite(),
        ensures
            r == saturate(self.scaled() / one() as int),
    {
        let (w, exact) = self.whole();
        proof {
            vstd::arithmetic::power2::lemma_pow2_pos(1074);
            lemma_floor_neg(self.units(), one());
        }
        if self.negative() {
            if w >= SIGN {
                i64::MIN
            } else if exact {
                0 - w as i64
            } else {
                0 - w as i64 - 1
            }
        } else if w >= SIGN {
            i64::MAX
        } else {
            w as i64
        }
    }

    /// Whether the number is finite and has no fractional part.
    pub fn is_integral(self) -> (r: bool)
        ensures
            r == self.integral(),
    {
        self.is_finite() && self.whole().1
    }
}

proof fn lemma_floor_neg(u: nat, n: nat)
    requires
        n > 0,
    ensures
        u % n == 0 ==> (-u) / n as int == -(u / n),
        u % n != 0 ==> (-u) / n as int == -(u / n) - 1,
{
    let q = u / n;
    let r = u % n;
    vstd::arithmetic::div_mod::lemma_fundamental_div_mod(u as int, n as int);
    vstd::arithmetic::div_mod::lemma_mod_bound(u as int, n as int);
    if r == 0 {
        assert(-u == (-q) * n) by (nonlinear_arith)
            requires
                u == n * q,
        ;
        vstd::arithmetic::div_mod::lemma_fundamental_div_mod_converse(-u, n as int, -q, 0);
    } else {
        assert(-u == (-q - 1) * n + (n - r)) by (nonlinear_arith)
            requires
                u == n * q + r,
        ;
        vstd::arithmetic::div_mod::lemma_fundamental_div_mod_converse(
            -u,
            n as int,
            -q - 1,
            n - r,
        );
    }
}

/// The grid point that stands for infinity lies beyond the range of `i64`.
proof fn lemma_units_inf(x: F64)
    requires
        x.inf(),
    ensures
        x.units() / one() >= 0x8000_0000_0000_0001,
{
    vstd::arithmetic::power2::lemma2_to64();
    vstd::arithmetic::power2::lemma2_to64_rest();
    assert(INF == 2046 * pow2(52) + FRAC);
    crate::float_grid::lemma_grid_at(52, 2046, FRAC as nat);
    lemma_whole(FRAC as nat, 2046);
    let d: nat = 972;
    vstd::arithmetic::power2::lemma_pow2_strictly_increases(12, d);
    assert(FRAC * pow2(d) >= 0x8000_0000_0000_0001) by (nonlinear_arith)
        requires
            FRAC == 0x10_0000_0000_0000,
            pow2(d) >= 4096,
    ;
}

}
