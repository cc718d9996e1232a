//! Rounding of a scaled integer to a floating-point code.
use crate::float_grid::grid;
use crate::float_grid::nearest;
use crate::float_grid::round_code;
use vstd::arithmetic::power2::pow2;
use vstd::prelude::*;

verus! {

/// The offset that keeps every exponent below a natural number.
pub open spec fn bias() -> nat {
    2200
}

/// `num / den` is `m * 2^k` exactly, or, where `sticky` is set, lies strictly between
/// `m * 2^k` and `(m + 1) * 2^k`.
pub open spec fn scaled_value(m: nat, k: int, sticky: bool, num: nat, den: nat) -> bool {
    let n = num * pow2(bias());
    let c = den * pow2((k + bias()) as nat);
    if sticky {
        m * c < n < (m + 1) * c
    } else {
        n == m * c
    }
}

/// `2^t` as an integer.
pub fn two_to(t: u32) -> (r: u128)
    requires
        t < 128,
    ensures
        r == pow2(t as nat),
{
    proof {
        lemma_shift_is_pow2(t);
    }
    1u128 << t
}

proof fn lemma_shift_is_pow2(t: u32)
    requires
        t < 128,
    ensures
        1u128 << t == pow2(t as nat),
    decreases t,
{
    if t == 0 {
        assert(1u128 << 0u32 == 1) by (bit_vector);
        vstd::arithmetic::power2::lemma2_to64();
    } else {
        let s = (t - 1) as u32;
        lemma_shift_is_pow2(s);
        vstd::arithmetic::power2::lemma_pow2_unfold(t as nat);
        assert(1u128 << t == 2 * (1u128 << s)) by (bit_vector)
            requires
                t < 128,
                t == s + 1,
        ;
    }
}

/// The number of binary digits of `m`.
pub fn bit_len(m: u128) -> (l: u32)
    requires
        0 < m < pow2(126),
    ensures
        1 <= l <= 126,
        pow2((l - 1) as nat) <= m < pow2(l as nat),
{
    let mut l: u32 = 0;
    let mut pw: u128 = 1;
    proof {
        vstd::arithmetic::power2::lemma2_to64();
    }
    while l < 126 && pw <= m
        invariant
            l <= 126,
            pw == pow2(l as nat),
            pw < 0x8000_0000_0000_0000_0000_0000_0000_0000u128,
            l > 0 ==> pow2((l - 1) as nat) <= m,
            0 < m < pow2(126),
        ensures
            l <= 126,
            m < pow2(l as nat),
            l > 0 ==> pow2((l - 1) as nat) <= m,
        decreases 126 - l,
    {
        proof {
            vstd::arithmetic::power2::lemma_pow2_unfold((l + 1) as nat);
            lemma_pow2_126();
            if l + 1 < 126 {
                vstd::arithmetic::power2::lemma_pow2_strictly_increases((l + 1) as nat, 126);
            }
        }
        pw = pw * 2;
        l = l + 1;
    }
    proof {
        vstd::arithmetic::power2::lemma2_to64();
    }
    l
}

pub proof fn lemma_pow2_126()
    ensures
        pow2(126) == 0x4000_0000_0000_0000_0000_0000_0000_0000,
{
    vstd::arithmetic::power2::lemma2_to64();
    vstd::arithmetic::power2::lemma2_to64_rest();
    vstd::arithmetic::power2::lemma_pow2_adds(63, 63);
    assert(0x8000_0000_0000_0000 * 0x8000_0000_0000_0000 == 0x4000_0000_0000_0000_0000_0000_0000_0000);
}

/// Where the exact value lies within the interval of codes `q` and `q + 1`, in integers.
proof fn lemma_interval(
    num: int,
    pb: int,
    w: int,
    h: int,
    c: int,
    m: int,
    q: int,
    r: int,
    sticky: bool,
)
    requires
        num >= 0,
        pb > 0,
        c > 0,
        h > 0,
        q >= 0,
        w * pb == 2 * h * c,
        m == q * (2 * h) + r,
        0 <= r < 2 * h,
        sticky ==> m * c < num * pb < (m + 1) * c,
        !sticky ==> num * pb == m * c,
    ensures
        q * w <= num,
        num < (q + 1) * w,
        r < h ==> 2 * num < (2 * q + 1) * w,
        r > h || (r == h && sticky) ==> 2 * num > (2 * q + 1) * w,
        r == h && !sticky ==> 2 * num == (2 * q + 1) * w,
{
    let n = num * pb;
    let t = 2 * h;
    assert((q * w) * pb == (q * t) * c) by (nonlinear_arith)
        requires
            w * pb == 2 * h * c,
            t == 2 * h,
    ;
    assert(((q + 1) * w) * pb == ((q + 1) * t) * c) by (nonlinear_arith)
        requires
            w * pb == 2 * h * c,
            t == 2 * h,
    ;
    assert(((2 * q + 1) * w) * pb == 2 * ((q * t + h) * c)) by (nonlinear_arith)
        requires
            w * pb == 2 * h * c,
            t == 2 * h,
    ;
    assert((2 * num) * pb == 2 * n) by (nonlinear_arith)
        requires
            n == num * pb,
    ;
    assert(q * (2 * h) == q * t);
    assert(m == q * t + r);
    assert((q * t) * c <= m * c) by (nonlinear_arith)
        requires
            m == q * t + r,
            r >= 0,
            c > 0,
    ;
    assert((m + 1) * c <= ((q + 1) * t) * c) by (nonlinear_arith)
        requires
            m == q * t + r,
            r < t,
            c > 0,
    ;
    assert(m * c < (m + 1) * c) by (nonlinear_arith)
        requires
            c > 0,
    ;
    vstd::arithmetic::mul::lemma_mul_inequality_converse(q * w, num, pb);
    vstd::arithmetic::mul::lemma_mul_strict_inequality_converse(num, (q + 1) * w, pb);
    if r < h {
        assert((m + 1) * c <= (q * t + h) * c) by (nonlinear_arith)
            requires
                m == q * t + r,
                r < h,
                c > 0,
        ;
        vstd::arithmetic::mul::lemma_mul_strict_inequality_converse(2 * num, (2 * q + 1) * w, pb);
    } else if r > h {
        assert(m * c > (q * t + h) * c) by (nonlinear_arith)
            requires
                m == q * t + r,
                r > h,
                c > 0,
        ;
        vstd::arithmetic::mul::lemma_mul_strict_inequality_converse((2 * q + 1) * w, 2 * num, pb);
    } else {
        assert(m == q * t + h);
        if sticky {
            vstd::arithmetic::mul::lemma_mul_strict_inequality_converse(
                (2 * q + 1) * w,
                2 * num,
                pb,
            );
        } else {
            assert(pb * (2 * num) == pb * ((2 * q + 1) * w)) by (nonlinear_arith)
                requires
                    (2 * num) * pb == ((2 * q + 1) * w) * pb,
            ;
            vstd::arithmetic::mul::lemma_mul_equality_converse(pb, 2 * num, (2 * q + 1) * w);
        }
    }
}

/// A value between code `b0` and the next one rounds to whichever its half says.
proof fn lemma_nearest_of_interval(
    p: nat,
    top: int,
    num: nat,
    den: nat,
    e: nat,
    q: nat,
    up: bool,
)
    requires
        p >= 1,
        den > 0,
        q < 2 * pow2(p),
        e == 0 || pow2(p) <= q,
        e * pow2(p) + q < top,
        q * (den * pow2(e)) <= num,
        num < (q + 1) * (den * pow2(e)),
        up ==> 2 * num > (2 * q + 1) * (den * pow2(e)) || (2 * num == (2 * q + 1) * (den * pow2(e))
            && q % 2 == 1),
        !up ==> 2 * num < (2 * q + 1) * (den * pow2(e)) || (2 * num == (2 * q + 1) * (den * pow2(e))
            && q % 2 == 0),
    ensures
        nearest(p, top, num, den, e * pow2(p) + q + (if up { 1int } else { 0int })),
{
    let f = pow2(p);
    let w = den * pow2(e);
    let b0: int = (e * f + q) as int;
    crate::float_grid::lemma_grid_at(p, e, q);
    crate::float_grid::lemma_grid_at(p, e, q + 1);
    assert(grid(p, b0) == q * pow2(e));
    assert(grid(p, b0 + 1) == (q + 1) * pow2(e));
    vstd::arithmetic::power2::lemma_pow2_unfold(p);
    let g = pow2((p - 1) as nat);
    assert(f == 2 * g);
    assert(e * f == 2 * (e * g)) by (nonlinear_arith)
        requires
            f == 2 * g,
    ;
    assert(b0 % 2 == q % 2);
    assert(den * (q * pow2(e) + (q + 1) * pow2(e)) == (2 * q + 1) * w) by (nonlinear_arith)
        requires
            w == den * pow2(e),
    ;
    assert(den * (q * pow2(e)) == q * w) by (nonlinear_arith)
        requires
            w == den * pow2(e),
    ;
    assert(den * ((q + 1) * pow2(e)) == (q + 1) * w) by (nonlinear_arith)
        requires
            w == den * pow2(e),
    ;
    if up {
        let b = b0 + 1;
        assert(grid(p, b - 1) + grid(p, b) == q * pow2(e) + (q + 1) * pow2(e));
        if b < top {
            crate::float_grid::lemma_grid_step(p, b);
            let x = grid(p, b);
            let y = grid(p, b + 1);
            assert(2 * num < den * (x + y)) by (nonlinear_arith)
                requires
                    num < den * x,
                    x < y,
                    den > 0,
            ;
        }
    } else {
        let b = b0;
        assert(grid(p, b) + grid(p, b + 1) == q * pow2(e) + (q + 1) * pow2(e));
        if b > 0 {
            crate::float_grid::lemma_grid_step(p, b - 1);
            let x = grid(p, b - 1);
            let y = grid(p, b);
            assert(2 * num > den * (x + y)) by (nonlinear_arith)
                requires
                    num >= den * y,
                    x < y,
                    den > 0,
            ;
        }
    }
}

/// A value of at least the infinity point of the grid rounds to infinity.
proof fn lemma_nearest_top(p: nat, top: int, num: nat, den: nat)
    requires
        den > 0,
        top > 0,
        den * grid(p, top) <= num,
    ensures
        nearest(p, top, num, den, top),
{
    crate::float_grid::lemma_grid_step(p, top - 1);
    let x = grid(p, top - 1);
    let y = grid(p, top);
    assert(2 * num > den * (x + y)) by (nonlinear_arith)
        requires
            num >= den * y,
            x < y,
            den > 0,
    ;
}

/// `2^(e + bias)` split at the two places where the rounding needs it.
proof fn lemma_scale(den: nat, e: nat, t: nat, k: int)
    requires
        e == t + k,
        k + bias() >= 0,
    ensures
        (den * pow2(e)) * pow2(bias()) == pow2(t) * (den * pow2((k + bias()) as nat)),
{
    let kb = (k + bias()) as nat;
    vstd::arithmetic::power2::lemma_pow2_adds(e, bias());
    vstd::arithmetic::power2::lemma_pow2_adds(t, kb);
    assert(e + bias() == t + kb);
    assert((den * pow2(e)) * pow2(bias()) == den * (pow2(e) * pow2(bias()))) by (nonlinear_arith);
    assert(pow2(t) * (den * pow2(kb)) == den * (pow2(t) * pow2(kb))) by (nonlinear_arith);
}

/// The code of the nearest grid point of the value that `scaled_value` describes.
/// `p` is the number of fraction bits and `emax` the exponent field of infinity.
pub fn round_scaled(
    p: u32,
    emax: u32,
    m: u128,
    k: i32,
    sticky: bool,
    num: Ghost<nat>,
    den: Ghost<nat>,
) -> (b: u64)
    requires
        1 <= p <= 52,
        3 <= emax <= 2047,
        0 < m < pow2(126),
        -2200 <= k <= 4000,
        den@ > 0,
        sticky ==> m >= pow2((p + 2) as nat),
        scaled_value(m as nat, k as int, sticky, num@, den@),
    ensures
        nearest(p as nat, emax * pow2(p as nat), num@, den@, b as int),
        b == round_code(p as nat, emax * pow2(p as nat), num@, den@),
{
    let ghost pn = p as nat;
    let ghost top = emax * pow2(pn);
    let ghost f = pow2(pn);
    proof {
        vstd::arithmetic::power2::lemma_pow2_pos(pn);
        vstd::arithmetic::power2::lemma_pow2_pos(bias());
        vstd::arithmetic::power2::lemma_pow2_pos((k + bias()) as nat);
        vstd::arithmetic::power2::lemma_pow2_unfold(pn + 1);
        vstd::arithmetic::power2::lemma2_to64();
        vstd::arithmetic::power2::lemma2_to64_rest();
        if pn < 52 {
            vstd::arithmetic::power2::lemma_pow2_strictly_increases(pn, 52);
        }
        assert(emax * f <= 2047 * 0x10_0000_0000_0000) by (nonlinear_arith)
            requires
                emax <= 2047,
                f <= 0x10_0000_0000_0000,
        ;
    }
    let frac: u64 = two_to(p) as u64;
    let l = bit_len(m);
    let e0: i32 = l as i32 - (p as i32 + 1) + k;
    let e: i32 = if e0 > 0 {
        e0
    } else {
        0
    };
    let t: i32 = e - k;
    if e >= emax as i32 - 1 {
        let b: u64 = (emax as u64) * frac;
        proof {
            lemma_overflow(pn, emax as nat, m as nat, l as nat, k as int, sticky, num@, den@);
            crate::float_grid::lemma_round_code(pn, top, num@, den@, b as int);
        }
        return b;
    }
    proof {
        assert(e * f + 2 * f <= top) by (nonlinear_arith)
            requires
                e <= emax - 2,
                top == emax * f,
                f > 0,
        ;
        assert(e * f >= 0) by (nonlinear_arith)
            requires
                e >= 0,
                f > 0,
        ;
    }
    if t <= 0 {
        let s: u32 = (0 - t) as u32;
        proof {
            lemma_left_shift(pn, m as nat, l as nat, k as int, e as nat, s as nat);
            assert(!sticky);
            assert(m * pow2(s as nat) < 0x1000_0000_0000_0000);
            if s >= 128 {
                vstd::arithmetic::power2::lemma_pow2_strictly_increases(127, s as nat);
                vstd::arithmetic::power2::lemma_pow2_strictly_increases(126, 127);
                lemma_pow2_126();
                assert(m * pow2(s as nat) >= pow2(s as nat)) by (nonlinear_arith)
                    requires
                        m >= 1,
                        pow2(s as nat) >= 0,
                ;
            }
        }
        let q: u128 = m * two_to(s);
        let b: u64 = (e as u64) * frac + q as u64;
        proof {
            lemma_exact(pn, m as nat, k as int, e as nat, s as nat, num@, den@);
            crate::float_grid::lemma_grid_at(pn, e as nat, q as nat);
            crate::float_grid::lemma_round_exact(pn, top, den@, b as int);
        }
        return b;
    }
    if t > 127 {
        proof {
            lemma_tiny(pn, top, m as nat, k as int, t as nat, sticky, num@, den@);
            crate::float_grid::lemma_round_code(pn, top, num@, den@, 0);
        }
        return 0;
    }
    let tp: u128 = two_to(t as u32);
    proof {
        vstd::arithmetic::power2::lemma_pow2_pos(t as nat);
    }
    let h: u128 = tp / 2;
    let q: u128 = m / tp;
    let r: u128 = m % tp;
    proof {
        vstd::arithmetic::power2::lemma_pow2_unfold(t as nat);
        vstd::arithmetic::power2::lemma_pow2_pos((t - 1) as nat);
        assert(tp == 2 * h);
        assert(h == pow2((t - 1) as nat));
        vstd::arithmetic::div_mod::lemma_fundamental_div_mod(m as int, tp as int);
        vstd::arithmetic::div_mod::lemma_mod_bound(m as int, tp as int);
        lemma_quotient(pn, m as nat, l as nat, k as int, e as nat, t as nat);
    }
    let up = r > h || (r == h && (sticky || q % 2 == 1));
    let b: u64 = (e as u64) * frac + q as u64 + if up {
        1
    } else {
        0
    };
    proof {
        let c = den@ * pow2((k + bias()) as nat);
        let w = den@ * pow2(e as nat);
        assert(c > 0) by (nonlinear_arith)
            requires
                den@ > 0,
                pow2((k + bias()) as nat) > 0,
                c == den@ * pow2((k + bias()) as nat),
        ;
        lemma_scale(den@, e as nat, t as nat, k as int);
        assert(m == q * (2 * h) + r) by (nonlinear_arith)
            requires
                m == tp * q + r,
                tp == 2 * h,
        ;
        lemma_interval(
            num@ as int,
            pow2(bias()) as int,
            w as int,
            h as int,
            c as int,
            m as int,
            q as int,
            r as int,
            sticky,
        );
        lemma_nearest_of_interval(pn, top, num@, den@, e as nat, q as nat, up);
        crate::float_grid::lemma_round_code(pn, top, num@, den@, b as int);
    }
    b
}

proof fn lemma_overflow(
    p: nat,
    emax: nat,
    m: nat,
    l: nat,
    k: int,
    sticky: bool,
    num: nat,
    den: nat,
)
    requires
        1 <= p,
        3 <= emax,
        -2200 <= k <= 4000,
        den > 0,
        l >= 1,
        pow2((l - 1) as nat) <= m,
        l - (p + 1) + k >= emax - 1,
        scaled_value(m, k, sticky, num, den),
    ensures
        nearest(p, emax * pow2(p) as int, num, den, emax * pow2(p) as int),
{
    let f = pow2(p);
    let top = emax * f;
    vstd::arithmetic::power2::lemma_pow2_pos(p);
    vstd::arithmetic::power2::lemma_pow2_pos(bias());
    assert(top > 0) by (nonlinear_arith)
        requires
            top == emax * f,
            emax >= 3,
            f > 0,
    ;
    let e = (emax - 1) as nat;
    assert(top == e * f + f) by (nonlinear_arith)
        requires
            top == emax * f,
            e == emax - 1,
    ;
    crate::float_grid::lemma_grid_at(p, e, f);
    let g = f * pow2(e);
    assert(grid(p, top as int) == g);
    let kb = (k + bias()) as nat;
    let c = den * pow2(kb);
    let lm = (l - 1) as nat;
    vstd::arithmetic::power2::lemma_pow2_adds(p, e);
    vstd::arithmetic::power2::lemma_pow2_adds(p + e, bias());
    vstd::arithmetic::power2::lemma_pow2_adds(lm, kb);
    if p + e + bias() < lm + kb {
        vstd::arithmetic::power2::lemma_pow2_strictly_increases(p + e + bias(), lm + kb);
    }
    let x = pow2(lm) * pow2(kb);
    assert(g * pow2(bias()) <= x);
    assert(m * c >= den * x) by (nonlinear_arith)
        requires
            m >= pow2(lm),
            c == den * pow2(kb),
            x == pow2(lm) * pow2(kb),
    ;
    assert(den * x >= den * (g * pow2(bias()))) by (nonlinear_arith)
        requires
            g * pow2(bias()) <= x,
    ;
    assert(den * (g * pow2(bias())) == (den * g) * pow2(bias())) by (nonlinear_arith);
    vstd::arithmetic::mul::lemma_mul_inequality_converse(
        (den * g) as int,
        num as int,
        pow2(bias()) as int,
    );
    lemma_nearest_top(p, top as int, num, den);
}

proof fn lemma_left_shift(p: nat, m: nat, l: nat, k: int, e: nat, s: nat)
    requires
        1 <= p <= 52,
        l >= 1,
        pow2((l - 1) as nat) <= m < pow2(l),
        e == (if l - (p + 1) + k > 0 {
            l - (p + 1) + k
        } else {
            0
        }),
        s == k - e,
    ensures
        m * pow2(s) < 2 * pow2(p),
        m * pow2(s) < 0x1000_0000_0000_0000,
        e > 0 ==> pow2(p) <= m * pow2(s),
        m < pow2(p + 2),
{
    vstd::arithmetic::power2::lemma_pow2_pos(s);
    vstd::arithmetic::power2::lemma_pow2_unfold(p + 1);
    vstd::arithmetic::power2::lemma_pow2_unfold(p + 2);
    vstd::arithmetic::power2::lemma2_to64();
    vstd::arithmetic::power2::lemma2_to64_rest();
    if p + 1 < 60 {
        vstd::arithmetic::power2::lemma_pow2_strictly_increases(p + 1, 60);
    }
    vstd::arithmetic::power2::lemma_pow2_adds(l, s);
    assert(m * pow2(s) < pow2(l) * pow2(s)) by (nonlinear_arith)
        requires
            m < pow2(l),
            pow2(s) > 0,
    ;
    assert(l + s <= p + 1);
    if l + s < p + 1 {
        vstd::arithmetic::power2::lemma_pow2_strictly_increases(l + s, p + 1);
    }
    if e > 0 {
        let lm = (l - 1) as nat;
        vstd::arithmetic::power2::lemma_pow2_adds(lm, s);
        assert(lm + s == p);
        assert(m * pow2(s) >= pow2(lm) * pow2(s)) by (nonlinear_arith)
            requires
                m >= pow2(lm),
                pow2(s) > 0,
        ;
    }
    if l < p + 2 {
        vstd::arithmetic::power2::lemma_pow2_strictly_increases(l, p + 2);
    }
}

proof fn lemma_exact(p: nat, m: nat, k: int, e: nat, s: nat, num: nat, den: nat)
    requires
        -2200 <= k <= 4000,
        s == k - e,
        scaled_value(m, k, false, num, den),
    ensures
        num == ((m * pow2(s)) * pow2(e)) * den,
{
    let kb = (k + bias()) as nat;
    vstd::arithmetic::power2::lemma_pow2_pos(bias());
    vstd::arithmetic::power2::lemma_pow2_adds(s, e);
    vstd::arithmetic::power2::lemma_pow2_adds(s + e, bias());
    assert(s + e + bias() == kb);
    let x = ((m * pow2(s)) * pow2(e)) * den;
    assert(x * pow2(bias()) == m * (den * (pow2(s) * pow2(e) * pow2(bias())))) by (nonlinear_arith)
        requires
            x == ((m * pow2(s)) * pow2(e)) * den,
    ;
    assert(pow2(s) * pow2(e) * pow2(bias()) == pow2(kb));
    assert(pow2(bias()) * num == pow2(bias()) * x) by (nonlinear_arith)
        requires
            num * pow2(bias()) == x * pow2(bias()),
    ;
    vstd::arithmetic::mul::lemma_mul_equality_converse(
        pow2(bias()) as int,
        num as int,
        x as int,
    );
}

proof fn lemma_tiny(
    p: nat,
    top: int,
    m: nat,
    k: int,
    t: nat,
    sticky: bool,
    num: nat,
    den: nat,
)
    requires
        1 <= p,
        top > 0,
        m < pow2(126),
        -2200 <= k <= 4000,
        den > 0,
        t == -k,
        t > 127,
        scaled_value(m, k, sticky, num, den),
    ensures
        nearest(p, top, num, den, 0),
{
    let kb = (k + bias()) as nat;
    let c = den * pow2(kb);
    let pb = pow2(bias());
    vstd::arithmetic::power2::lemma_pow2_pos(bias());
    vstd::arithmetic::power2::lemma_pow2_pos(kb);
    vstd::arithmetic::power2::lemma_pow2_pos(p);
    vstd::arithmetic::power2::lemma_pow2_adds(t, kb);
    vstd::arithmetic::power2::lemma_pow2_strictly_increases(127, t);
    vstd::arithmetic::power2::lemma_pow2_unfold(127);
    assert(c > 0) by (nonlinear_arith)
        requires
            c == den * pow2(kb),
            den > 0,
            pow2(kb) > 0,
    ;
    assert((m + 1) * c <= pow2(126) * c) by (nonlinear_arith)
        requires
            m < pow2(126),
            c > 0,
    ;
    assert(m * c < (m + 1) * c) by (nonlinear_arith)
        requires
            c > 0,
    ;
    assert(2 * (pow2(126) * c) < pow2(t) * c) by (nonlinear_arith)
        requires
            2 * pow2(126) < pow2(t),
            c > 0,
    ;
    assert(pow2(t) * c == den * pb) by (nonlinear_arith)
        requires
            c == den * pow2(kb),
            pb == pow2(t) * pow2(kb),
    ;
    assert((2 * num) * pb == 2 * (num * pb)) by (nonlinear_arith);
    assert((2 * num) * pb < den * pb);
    vstd::arithmetic::mul::lemma_mul_strict_inequality_converse(
        (2 * num) as int,
        den as int,
        pb as int,
    );
    vstd::arithmetic::power2::lemma_pow2_unfold(p);
    vstd::arithmetic::power2::lemma_pow2_pos((p - 1) as nat);
    assert(grid(p, 0) == 0);
    assert(grid(p, 1) == 1);
    assert(den * (grid(p, 0) + grid(p, 1)) == den) by (nonlinear_arith)
        requires
            grid(p, 0) == 0,
            grid(p, 1) == 1,
    ;
}

proof fn lemma_quotient(p: nat, m: nat, l: nat, k: int, e: nat, t: nat)
    requires
        1 <= p <= 52,
        1 <= l,
        pow2((l - 1) as nat) <= m < pow2(l),
        e == (if l - (p + 1) + k > 0 {
            l - (p + 1) + k
        } else {
            0
        }),
        t == e - k,
        t >= 1,
    ensures
        m / pow2(t) < 2 * pow2(p),
        e > 0 ==> pow2(p) <= m / pow2(t),
{
    let tp = pow2(t);
    let q = m / tp;
    vstd::arithmetic::power2::lemma_pow2_pos(t);
    vstd::arithmetic::power2::lemma_pow2_unfold(p + 1);
    vstd::arithmetic::div_mod::lemma_fundamental_div_mod(m as int, tp as int);
    vstd::arithmetic::div_mod::lemma_mod_bound(m as int, tp as int);
    vstd::arithmetic::power2::lemma_pow2_adds(p + 1, t);
    assert(l <= p + 1 + t);
    if l < p + 1 + t {
        vstd::arithmetic::power2::lemma_pow2_strictly_increases(l, p + 1 + t);
    }
    assert(q < pow2(p + 1)) by (nonlinear_arith)
        requires
            tp * q <= m,
            m < pow2(p + 1) * tp,
            tp > 0,
    ;
    if e > 0 {
        let lm = (l - 1) as nat;
        vstd::arithmetic::power2::lemma_pow2_adds(p, t);
        assert(lm == p + t);
        assert(q >= pow2(p)) by (nonlinear_arith)
            requires
                m < tp * q + tp,
                m >= pow2(p) * tp,
                tp > 0,
        ;
    }
}

}
