use pce::float32::F32;
use pce::float64::F64;

struct Rng(u64);

impl Rng {
    fn next(&mut self) -> u64 {
        self.0 ^= self.0 << 13;
        self.0 ^= self.0 >> 7;
        self.0 ^= self.0 << 17;
        self.0
    }
}

fn same64(a: f64, b: f64) -> bool {
    (a.is_nan() && b.is_nan()) || a.to_bits() == b.to_bits()
}

fn same32(a: f32, b: f32) -> bool {
    (a.is_nan() && b.is_nan()) || a.to_bits() == b.to_bits()
}

#[test]
fn square_roots_agree_with_the_machine() {
    let mut r = Rng(0x1234_5678_9ABC_DEF1);
    let mut xs = vec![
        0.0f64,
        -0.0,
        1.0,
        2.0,
        4.0,
        -1.0,
        f64::MAX,
        f64::MIN_POSITIVE,
        f64::from_bits(1),
        f64::INFINITY,
        f64::NAN,
        0.25,
    ];
    for _ in 0..2000 {
        xs.push(f64::from_bits(r.next() >> 1));
    }
    for x in xs {
        let mine = f64::from_bits(F64 { bits: x.to_bits() }.sqrt().bits);
        assert!(same64(mine, x.sqrt()), "sqrt {x:e}");
    }
}

fn floats() -> Vec<f32> {
    let mut r = Rng(0xDEAD_BEEF_0BAD_F00D);
    let mut xs = vec![
        0.0f32,
        -0.0,
        1.0,
        -1.0,
        0.5,
        3.0,
        f32::MAX,
        f32::MIN_POSITIVE,
        f32::from_bits(1),
        f32::INFINITY,
        f32::NEG_INFINITY,
        f32::NAN,
        16777217.0,
    ];
    for _ in 0..60 {
        xs.push(f32::from_bits(r.next() as u32));
        let e = 127 - 20 + (r.next() % 40) as u32;
        xs.push(f32::from_bits((e << 23) | (r.next() as u32 >> 9)));
    }
    xs
}

#[test]
fn single_precision_agrees_with_the_machine() {
    let xs = floats();
    for &a in &xs {
        for &b in &xs {
            let (p, q) = (F32 { bits: a.to_bits() }, F32 { bits: b.to_bits() });
            assert!(same32(f32::from_bits(p.add(q).bits), a + b), "{a:e} + {b:e}");
            assert!(same32(f32::from_bits(p.sub(q).bits), a - b), "{a:e} - {b:e}");
            assert!(same32(f32::from_bits(p.mul(q).bits), a * b), "{a:e} * {b:e}");
            assert_eq!(p.lt(q), a < b);
            assert_eq!(p == q, a == b);
        }
    }
}

#[test]
fn narrowing_agrees_with_the_machine() {
    let mut r = Rng(77);
    let mut xs = vec![0.0f64, -0.0, 1e300, -1e300, 1e-300, 0.1, 16777217.0, f64::NAN, 1e-45, 7e-46];
    for _ in 0..3000 {
        let e = 1023 - 160 + r.next() % 320;
        xs.push(f64::from_bits((e << 52) | (r.next() >> 12)));
    }
    for x in xs {
        let mine = F32::from_f64(F64 { bits: x.to_bits() });
        assert!(same32(f32::from_bits(mine.bits), x as f32), "{x:e}");
    }
}
