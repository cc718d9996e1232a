use pce::float64::F64;

fn f(x: f64) -> F64 {
    F64 { bits: x.to_bits() }
}

fn g(x: F64) -> f64 {
    f64::from_bits(x.bits)
}

fn same(a: f64, b: f64) -> bool {
    (a.is_nan() && b.is_nan()) || a.to_bits() == b.to_bits()
}

struct Rng(u64);

impl Rng {
    fn next(&mut self) -> u64 {
        self.0 ^= self.0 << 13;
        self.0 ^= self.0 >> 7;
        self.0 ^= self.0 << 17;
        self.0
    }
}

fn samples() -> Vec<f64> {
    let mut v = vec![
        0.0,
        -0.0,
        1.0,
        -1.0,
        0.1,
        0.3,
        3.0,
        1.5,
        2.5,
        f64::MIN_POSITIVE,
        f64::MAX,
        f64::MIN,
        f64::EPSILON,
        f64::INFINITY,
        f64::NEG_INFINITY,
        f64::NAN,
        f64::from_bits(1),
        f64::from_bits(0x000F_FFFF_FFFF_FFFF),
        9007199254740993.0,
        1e308,
        -1e-308,
        1e-320,
    ];
    let mut r = Rng(0x9E37_79B9_7F4A_7C15);
    for _ in 0..60 {
        v.push(f64::from_bits(r.next()));
    }
    for _ in 0..60 {
        let e = 1023 - 60 + r.next() % 120;
        v.push(f64::from_bits((e << 52) | (r.next() >> 12) | ((r.next() & 1) << 63)));
    }
    v
}

#[test]
fn arithmetic_agrees_with_the_hardware() {
    let v = samples();
    for &a in &v {
        for &b in &v {
            assert!(same(g(f(a).add(f(b))), a + b), "{a:e} + {b:e}");
            assert!(same(g(f(a).sub(f(b))), a - b), "{a:e} - {b:e}");
            assert!(same(g(f(a).mul(f(b))), a * b), "{a:e} * {b:e}");
            assert!(same(g(f(a).div(f(b))), a / b), "{a:e} / {b:e}");
        }
    }
}

#[test]
fn comparisons_agree_with_the_hardware() {
    let v = samples();
    for &a in &v {
        for &b in &v {
            assert_eq!(f(a) == f(b), a == b);
            assert_eq!(f(a).lt(f(b)), a < b);
            assert_eq!(f(a).le(f(b)), a <= b);
        }
    }
}

#[test]
fn conversions_agree_with_the_hardware() {
    for &a in &samples() {
        assert_eq!(f(a).trunc_i64(), a as i64, "{a:e}");
        assert_eq!(f(a).is_integral(), a.is_finite() && a.fract() == 0.0, "{a:e}");
        if a.is_finite() {
            assert_eq!(f(a).floor_i64(), a.floor() as i64, "{a:e}");
        }
    }
    let mut r = Rng(12345);
    for i in [0i64, 1, -1, i64::MAX, i64::MIN, 9007199254740993, -9007199254740995] {
        assert!(same(g(F64::from_i64(i)), i as f64));
    }
    for _ in 0..1000 {
        let i = r.next() as i64;
        assert!(same(g(F64::from_i64(i)), i as f64));
    }
}
