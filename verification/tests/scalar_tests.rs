use ray_tracer::scalar::Scalar;

fn s(x: f32) -> Scalar {
    Scalar::from_bits(x.to_bits())
}

fn f(x: Scalar) -> f32 {
    f32::from_bits(x.to_bits())
}

fn same_bits(got: Scalar, want: f32) -> bool {
    got.to_bits() == want.to_bits() || (f(got).is_nan() && want.is_nan())
}

#[test]
fn arithmetic_agrees_with_hardware() {
    let samples: [f32; 22] = [
        0.0,
        -0.0,
        1.0,
        -1.0,
        0.1,
        3.5,
        -2.25,
        1e-20,
        1e20,
        255.0,
        0.70710677,
        16777216.0,
        f32::INFINITY,
        f32::NEG_INFINITY,
        f32::NAN,
        f32::MAX,
        f32::MIN,
        f32::MIN_POSITIVE,
        1e-45,
        -1e-45,
        1.1754942e-38,
        8388607.5,
    ];
    for &a in samples.iter() {
        for &b in samples.iter() {
            assert!(same_bits(s(a).add(s(b)), a + b), "{:e} + {:e}", a, b);
            assert!(same_bits(s(a).sub(s(b)), a - b), "{:e} - {:e}", a, b);
            assert!(same_bits(s(a).mul(s(b)), a * b), "{:e} * {:e}", a, b);
            assert!(same_bits(s(a).div(s(b)), a / b), "{:e} / {:e}", a, b);
            assert!(same_bits(s(a).rem(s(b)), a % b), "{:e} % {:e}", a, b);
        }
        assert!(same_bits(s(a).sqrt(), a.sqrt()), "sqrt {:e}", a);
        assert!(same_bits(s(a).trunc(), a.trunc()), "trunc {:e}", a);
        assert_eq!(s(a).to_u32(), a as u32);
    }
}

#[test]
fn comparisons_agree_with_hardware() {
    let samples: [f32; 11] = [
        0.0,
        -0.0,
        1.0,
        -1.0,
        f32::INFINITY,
        f32::NEG_INFINITY,
        f32::NAN,
        f32::MAX,
        f32::MIN,
        1e-45,
        -1e-45,
    ];
    for &a in samples.iter() {
        assert_eq!(s(a).is_nan(), a.is_nan());
        assert_eq!(s(a).is_sign_positive(), a.is_sign_positive());
        assert_eq!(f(s(a).abs()).to_bits(), a.abs().to_bits());
        assert_eq!(f(s(a).neg()).to_bits(), (-a).to_bits());
        for &b in samples.iter() {
            assert_eq!(s(a).lt(s(b)), a < b);
            assert_eq!(s(a).le(s(b)), a <= b);
            assert_eq!(s(a).gt(s(b)), a > b);
            assert_eq!(s(a).ge(s(b)), a >= b);
            assert_eq!(s(a).equals(s(b)), a == b);
            let lo = f(s(a).min(s(b)));
            let hi = f(s(a).max(s(b)));
            assert!(lo == a.min(b) || (lo.is_nan() && a.min(b).is_nan()));
            assert!(hi == a.max(b) || (hi.is_nan() && a.max(b).is_nan()));
        }
    }
}

#[test]
fn fractions_are_cut_off_and_wrapped() {
    for x in [0.0f32, -0.0, 0.75, -0.75, 1.0, 1.5, -2.25, 8388607.5, 8388608.0, 1e20, -1e20] {
        assert_eq!(f(s(x).trunc()).to_bits(), x.trunc().to_bits());
        assert_eq!(f(s(x).rem_euclid(s(1.0))).to_bits(), x.rem_euclid(1.0).to_bits());
    }
    assert_eq!(f(s(2.75).rem_euclid(s(1.0))), 0.75);
    assert_eq!(f(s(-0.25).rem_euclid(s(1.0))), 0.75);
    assert_eq!(f(s(7.5).rem(s(2.0))), 1.5);
    assert_eq!(f(s(-7.5).rem(s(2.0))), -1.5);
    assert!(f(s(1.0).rem(s(0.0))).is_nan());
}

#[test]
fn counts_convert_exactly() {
    for n in [0u32, 1, 2, 12, 255, 16777216, 16777217, u32::MAX] {
        assert_eq!(f(Scalar::from_u32(n)), n as f32);
    }
}

#[test]
fn sizes_convert_to_the_nearest_number() {
    let sizes: [usize; 12] = [
        0,
        1,
        12,
        16777216,
        16777217,
        16777219,
        4294967295,
        4294967296,
        1099511627775,
        4611686018427387904,
        18446743523953737727,
        usize::MAX,
    ];
    for n in sizes {
        assert_eq!(f(Scalar::from_usize(n)), n as f32);
    }
}

fn agree(got: Scalar, want: f32) -> bool {
    got.to_bits() == want.to_bits() || (f(got).is_nan() && want.is_nan())
}

#[test]
fn arithmetic_agrees_with_hardware_on_arbitrary_patterns() {
    let mut state: u64 = 0x9e37_79b9_7f4a_7c15;
    let mut next = move || {
        state ^= state << 13;
        state ^= state >> 7;
        state ^= state << 17;
        (state >> 16) as u32
    };
    for round in 0..200_000 {
        let (mut a, mut b) = (next(), next());
        if round % 4 == 1 {
            // Two numbers of nearly the same size.
            b = a.wrapping_add(next() % 64);
        } else if round % 4 == 2 {
            // Small exponents: subnormal numbers and their neighbours.
            a &= 0x81ff_ffff;
            b &= 0x80ff_ffff;
        }
        let (x, y) = (f32::from_bits(a), f32::from_bits(b));
        let (p, q) = (Scalar::from_bits(a), Scalar::from_bits(b));
        assert!(agree(p.add(q), x + y), "{:e} + {:e}", x, y);
        assert!(agree(p.sub(q), x - y), "{:e} - {:e}", x, y);
        assert!(agree(p.mul(q), x * y), "{:e} * {:e}", x, y);
        assert!(agree(p.div(q), x / y), "{:e} / {:e}", x, y);
        assert!(agree(p.sqrt(), x.sqrt()), "sqrt {:e}", x);
        assert!(agree(p.rem(q), x % y), "{:e} % {:e}", x, y);
        assert!(agree(p.rem_euclid(q), x.rem_euclid(y)), "{:e} rem_euclid {:e}", x, y);
        assert!(agree(p.trunc(), x.trunc()), "trunc {:e}", x);
        assert_eq!(p.lt(q), x < y);
        assert_eq!(p.le(q), x <= y);
        assert_eq!(p.equals(q), x == y);
        assert_eq!(p.to_u32(), x as u32);
        assert!(agree(Scalar::from_u32(a), a as f32));
    }
}
