use vyges_sta::float64::F64;

const SAMPLES: [u64; 28] = [
    0x0000_0000_0000_0000, 0x8000_0000_0000_0000, 0x0000_0000_0000_0001, 0x8000_0000_0000_0001,
    0x000f_ffff_ffff_ffff, 0x0010_0000_0000_0000, 0x3ff0_0000_0000_0000, 0xbff0_0000_0000_0000,
    0x3ff0_0000_0000_0001, 0x3fef_ffff_ffff_ffff, 0x4000_0000_0000_0000, 0x4009_21fb_5444_2d18,
    0x3fb9_9999_9999_999a, 0x3fd5_5555_5555_5555, 0x7fef_ffff_ffff_ffff, 0xffef_ffff_ffff_ffff,
    0x7ff0_0000_0000_0000, 0xfff0_0000_0000_0000, 0x7ff8_0000_0000_0000, 0x7ff0_0000_0000_0001,
    0x36a0_0000_0000_0000, 0x36a0_0000_0000_0001, 0x3690_0000_0000_0000, 0x47ef_ffff_e000_0000,
    0x47ef_ffff_f000_0000, 0x3810_0000_0000_0000, 0x380f_ffff_ffff_ffff, 0x1e2d_3c4b_5a69_7887,
];

fn hard(x: u64) -> f64 {
    f64::from_bits(x)
}

/// Every bit of a result, any nan alike.
fn bits(x: f64) -> u64 {
    if x.is_nan() {
        0x7ff8_0000_0000_0000
    } else {
        x.to_bits()
    }
}

fn soft(x: F64) -> u64 {
    bits(f64::from_bits(x.to_bits()))
}

fn check(a: u64, b: u64) {
    let (x, y, p, q) = (hard(a), hard(b), F64(a), F64(b));
    assert_eq!(soft(p + q), bits(x + y), "{a:016x} + {b:016x}");
    assert_eq!(soft(p - q), bits(x - y), "{a:016x} - {b:016x}");
    assert_eq!(soft(p * q), bits(x * y), "{a:016x} * {b:016x}");
    assert_eq!(soft(p / q), bits(x / y), "{a:016x} / {b:016x}");
    assert_eq!(p == q, x == y, "{a:016x} == {b:016x}");
    assert_eq!((p.lt(q), p.le(q), p.gt(q), p.ge(q)), (x < y, x <= y, x > y, x >= y));
    if x != y {
        assert_eq!((soft(p.min(q)), soft(p.max(q))), (bits(x.min(y)), bits(x.max(y))));
    }
}

fn check_one(a: u64) {
    let (x, p) = (hard(a), F64(a));
    assert_eq!(p.is_nan(), x.is_nan());
    assert_eq!(soft(p.abs()), bits(x.abs()));
    assert_eq!(soft(p.negate()), bits(-x));
    assert_eq!(soft(-p), bits(-x));
    if x.is_nan() || x < 0.0 {
        assert!(p.sqrt().is_nan(), "sqrt {a:016x}");
    } else {
        assert_eq!(soft(p.sqrt()), bits(x.sqrt()), "sqrt {a:016x}");
    }
    let narrow = f32::from_bits(p.to_f32().to_bits());
    assert!(narrow.to_bits() == (x as f32).to_bits() || (narrow.is_nan() && x.is_nan()), "{a:016x} as f32");
}

#[test]
fn double_precision_agrees_with_the_machine_on_edge_cases() {
    for a in SAMPLES {
        for b in SAMPLES {
            check(a, b);
        }
        check_one(a);
    }
    assert_eq!(F64::default().to_bits(), 0);
    assert_eq!(F64::from_bits(0x3ff0_0000_0000_0000), F64(0x3ff0_0000_0000_0000));
}

#[test]
fn double_precision_agrees_with_the_machine_on_many_values() {
    let mut state: u64 = 0x2545_f491_4f6c_dd1d;
    let mut next = || {
        state ^= state << 13;
        state ^= state >> 7;
        state ^= state << 17;
        state
    };
    for _ in 0..30_000 {
        let (a, b) = (next(), next());
        check(a, b);
        check(a, a ^ (b & 0x8000_ffff_ffff_ffff));
        check_one(a);
        // In the range of single precision.
        check_one((a & 0x800f_ffff_ffff_ffff) | ((0x360 + b % 0x130) << 52));
    }
}
