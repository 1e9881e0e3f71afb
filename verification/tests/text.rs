use chainlightning::binary64::Binary64;
use chainlightning::shortest::push_float;
use chainlightning::text::{copy_of, push_decimal, push_fixed, push_joined, same};

fn b(x: f64) -> Binary64 {
    Binary64 { bits: x.to_bits() }
}

fn shortest(x: f64) -> String {
    let mut s = String::new();
    push_float(&mut s, b(x));
    s
}

fn fixed(x: f64, places: usize) -> String {
    let mut s = String::new();
    push_fixed(&mut s, b(x), places);
    s
}

fn samples() -> Vec<f64> {
    let mut v = vec![
        0.0,
        -0.0,
        1.0,
        -1.0,
        0.1,
        0.66,
        0.5,
        0.75,
        2.0,
        1e15,
        1e16,
        9999999999999998.0,
        123456789012345680.0,
        0.0001,
        0.00009999,
        1e-5,
        1.5e-7,
        5e-324,
        2.2250738585072014e-308,
        1.7976931348623157e308,
        2251799813685248.25,
        2251799813685248.75,
        4503599627370496.5,
        4503599627370497.5,
        9007199254740993.0,
        0.3,
        2.0f64.powi(-20),
        2.0f64.powi(60),
        1.0 / 3.0,
        100.0,
        12345.678,
        f64::INFINITY,
        f64::NEG_INFINITY,
        f64::NAN,
    ];
    let mut x: u64 = 0x9e3779b97f4a7c15;
    for i in 0..60 {
        x ^= x << 13;
        x ^= x >> 7;
        x ^= x << 17;
        let bits = if i % 2 == 0 { x } else { (x & 0x800f_ffff_ffff_ffff) | ((1000 + x % 60) << 52) };
        v.push(f64::from_bits(bits));
    }
    v
}

#[test]
fn shortest_text_agrees_with_std() {
    for x in samples() {
        assert_eq!(shortest(x), format!("{:?}", x), "bits {:x}", x.to_bits());
    }
}

#[test]
fn shortest_text_of_small_fractions() {
    for i in 0..300 {
        let x = i as f64 / 100.0;
        assert_eq!(shortest(x), format!("{:?}", x));
    }
}

#[test]
fn fixed_text_agrees_with_std() {
    for x in samples() {
        for places in 0..4 {
            assert_eq!(fixed(x, places), format!("{:.*}", places, x), "bits {:x}", x.to_bits());
        }
    }
}

#[test]
fn decimal_text_agrees_with_std() {
    for n in [0, 1, 9, 10, 99, 100, 12345, u64::MAX] {
        let mut s = String::new();
        push_decimal(&mut s, n);
        assert_eq!(s, format!("{}", n));
    }
}

#[test]
fn parts_are_joined() {
    let mut s = copy_of("x:");
    push_joined(&mut s, &vec!["a".to_string(), "b".to_string(), "c".to_string()], ", ");
    assert_eq!(s, "x:a, b, c");
    let mut s = copy_of("");
    push_joined(&mut s, &vec![], ", ");
    assert_eq!(s, "");
}

#[test]
fn texts_are_compared_by_character() {
    assert!(same("", ""));
    assert!(same("gänse", "gänse"));
    assert!(!same("gans", "gänse"));
    assert!(!same("abc", "abd"));
}
