use vyges_sta::float32::F32;

const SAMPLES: [u32; 34] = [
    0x0000_0000, 0x8000_0000, 0x0000_0001, 0x8000_0001, 0x0000_0002, 0x007f_ffff, 0x0080_0000, 0x0080_0001,
    0x3f80_0000, 0xbf80_0000, 0x3f80_0001, 0x3f7f_ffff, 0x4000_0000, 0x4049_0fdb, 0x3dcc_cccd, 0x3eaa_aaab,
    0x7149_f2ca, 0xf149_f2ca, 0x7f7f_ffff, 0xff7f_ffff, 0x7f80_0000, 0xff80_0000, 0x7fc0_0000, 0x7f80_0001,
    0x3089_705f, 0x2edb_e6ff, 0x30f4_a42e, 0x2690_1d7d, 0x3586_37bd, 0x4b7f_ffff, 0x4b80_0000, 0x4b80_0001,
    0x1a2b_3c4d, 0x5e6f_7081,
];

fn hard(x: u32) -> f32 {
    f32::from_bits(x)
}

/// Every bit of a result, any nan alike.
fn bits(x: f32) -> u32 {
    if x.is_nan() {
        0x7fc0_0000
    } else {
        x.to_bits()
    }
}

fn soft(x: F32) -> u32 {
    bits(f32::from_bits(x.to_bits()))
}

fn check(a: u32, b: u32) {
    let (x, y, p, q) = (hard(a), hard(b), F32(a), F32(b));
    assert_eq!(soft(p + q), bits(x + y), "{a:08x} + {b:08x}");
    assert_eq!(soft(p - q), bits(x - y), "{a:08x} - {b:08x}");
    assert_eq!(soft(p * q), bits(x * y), "{a:08x} * {b:08x}");
    assert_eq!(soft(p / q), bits(x / y), "{a:08x} / {b:08x}");
    assert_eq!(p == q, x == y, "{a:08x} == {b:08x}");
    assert_eq!((p.lt(q), p.le(q), p.gt(q), p.ge(q)), (x < y, x <= y, x > y, x >= y), "{a:08x} {b:08x}");
    let (least, most) = (soft(p.min(q)), soft(p.max(q)));
    if x == y {
        assert!(least == a || least == b);
        assert!(most == a || most == b);
    } else {
        assert_eq!((least, most), (bits(x.min(y)), bits(x.max(y))), "{a:08x} {b:08x}");
    }
}

#[test]
fn single_precision_agrees_with_the_machine_on_edge_cases() {
    for a in SAMPLES {
        for b in SAMPLES {
            check(a, b);
        }
        let (x, p) = (hard(a), F32(a));
        assert_eq!(p.is_nan(), x.is_nan());
        assert_eq!(soft(p.abs()), bits(x.abs()));
        assert_eq!(soft(p.negate()), bits(-x));
        assert_eq!(soft(-p), bits(-x));
        let wide = f64::from_bits(p.to_f64().to_bits());
        assert!(wide == f64::from(x) || (wide.is_nan() && x.is_nan()));
    }
    assert_eq!(F32::default().to_bits(), 0);
    assert_eq!(F32::from_bits(0x3f80_0000), F32(0x3f80_0000));
}

#[test]
fn single_precision_agrees_with_the_machine_on_many_values() {
    let mut state: u64 = 0x9e37_79b9_7f4a_7c15;
    let mut next = || {
        state = state.wrapping_mul(6364136223846793005).wrapping_add(1442695040888963407);
        (state >> 32) as u32
    };
    for _ in 0..40_000 {
        let (a, b) = (next(), next());
        check(a, b);
        // Near one another, where sums cancel.
        check(a, a ^ (b & 0x800f_ffff));
    }
}
