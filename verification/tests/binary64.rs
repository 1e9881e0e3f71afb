use chainlightning::binary64::Binary64;

fn b(x: f64) -> Binary64 {
    Binary64 { bits: x.to_bits() }
}

fn f(x: Binary64) -> f64 {
    f64::from_bits(x.bits)
}

/// Bit patterns that agree, any not-a-number counting as the same.
fn same(x: Binary64, y: f64) -> bool {
    if y.is_nan() {
        f(x).is_nan()
    } else {
        x.bits == y.to_bits()
    }
}

/// Values of all magnitudes, edge cases first.
fn samples() -> Vec<f64> {
    let mut v = vec![
        0.0, -0.0, 1.0, -1.0, 0.1, 0.2, 0.3, 0.5, 0.66, 0.9, 2.0, 3.0, 10.0, 1.5, 2.5, 1e-300, 1e300, 1e308, 5e-324,
        2.2250738585072014e-308, 2.225073858507201e-308, 1.7976931348623157e308, f64::INFINITY, f64::NEG_INFINITY,
        f64::NAN, 9007199254740991.0, 9007199254740992.0, 9007199254740994.0, 1.8446744073709552e19,
    ];
    let mut x: u64 = 0x9e3779b97f4a7c15;
    for i in 0..120 {
        x ^= x << 13;
        x ^= x >> 7;
        x ^= x << 17;
        // Some anywhere, some with nearby exponents.
        let bits = if i % 2 == 0 { x } else { (x & 0x800f_ffff_ffff_ffff) | ((1000 + x % 50) << 52) };
        v.push(f64::from_bits(bits));
    }
    v
}

#[test]
fn arithmetic_agrees_with_hardware() {
    let v = samples();
    for &x in &v {
        for &y in &v {
            assert!(same(b(x).plus(b(y)), x + y), "{:e} + {:e}", x, y);
            assert!(same(b(x).minus(b(y)), x - y), "{:e} - {:e}", x, y);
            assert!(same(b(x).times(b(y)), x * y), "{:e} * {:e}", x, y);
            assert!(same(b(x).over(b(y)), x / y), "{:e} / {:e}", x, y);
        }
    }
}

#[test]
fn comparisons_agree_with_hardware() {
    let v = samples();
    for &x in &v {
        assert_eq!(b(x).is_nan(), x.is_nan());
        assert!(same(b(x).abs(), x.abs()));
        for &y in &v {
            assert_eq!(b(x).lt(b(y)), x < y);
            assert_eq!(b(x).le(b(y)), x <= y);
            if x != y {
                assert!(same(b(x).min(b(y)), x.min(y)));
                assert!(same(b(x).max(b(y)), x.max(y)));
            }
        }
    }
}

#[test]
fn clamp_agrees_with_hardware() {
    for &x in &samples() {
        assert!(same(b(x).clamp(b(0.2), b(5.0)), x.clamp(0.2, 5.0)));
    }
}

#[test]
fn conversions_agree_with_hardware() {
    for &x in &samples() {
        assert_eq!(b(x).to_u64(), x as u64, "{:e}", x);
    }
    let mut n: u64 = 1;
    for i in 0..200u64 {
        n = n.wrapping_mul(6364136223846793005).wrapping_add(1442695040888963407);
        let m = n >> (i % 64);
        assert_eq!(f(Binary64::from_u64(m)), m as f64);
    }
    assert_eq!(f(Binary64::from_u64(0)).to_bits(), 0);
    assert_eq!(f(Binary64::from_u64(u64::MAX)), u64::MAX as f64);
}

#[test]
fn ratios_are_decimal_literals() {
    assert_eq!(f(Binary64::ratio(66, 100)), 0.66);
    assert_eq!(f(Binary64::ratio(1, 10)), 0.1);
    assert_eq!(f(Binary64::ratio(10, 100)), 0.10);
    assert_eq!(f(Binary64::ratio(125, 1000)), 0.125);
    assert_eq!(f(Binary64::ratio(3, 10)), 0.3);
    assert_eq!(f(Binary64::ratio(7, 10)), 0.7);
}

/// Rounding keeps the order of quantities.
#[test]
fn rounding_is_monotone() {
    let mut last = 0.0;
    for n in 0..1000u64 {
        let x = f(Binary64::ratio(n, 997));
        assert!(x >= last);
        last = x;
    }
}

#[test]
fn square_roots_agree_with_hardware() {
    for x in samples() {
        assert!(same(b(x).sqrt(), x.sqrt()), "sqrt {:e}", x);
    }
    for i in 0..1000u64 {
        let x = i as f64;
        assert!(same(b(x).sqrt(), x.sqrt()), "sqrt {}", i);
        assert!(same(b(x * x).sqrt(), x));
    }
}
