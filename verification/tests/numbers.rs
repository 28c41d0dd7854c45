//! Doubles against the machine's own.
use hft_mm::decimal::{push_fixed, push_signed_fixed};
use hft_mm::double::Double;
use hft_mm::parse::{power_of_ten, read_double};

fn d(x: f64) -> Double {
    Double::from_bits(x.to_bits())
}

fn f(x: Double) -> f64 {
    f64::from_bits(x.to_bits())
}

/// The same number, or both not a number.
fn agree(x: Double, y: f64) -> bool {
    f(x).to_bits() == y.to_bits() || (f(x).is_nan() && y.is_nan())
}

fn next(seed: &mut u64) -> u64 {
    *seed ^= *seed << 13;
    *seed ^= *seed >> 7;
    *seed ^= *seed << 17;
    *seed
}

fn special() -> Vec<f64> {
    vec![
        0.0,
        -0.0,
        1.0,
        -1.0,
        0.1,
        -0.1,
        0.5,
        1.5,
        2.5,
        -2.5,
        0.25,
        3.0,
        10.0,
        1e-9,
        1e-18,
        1e18,
        24000.0,
        23999.5,
        1e300,
        -1e300,
        f64::MAX,
        f64::MIN,
        f64::MIN_POSITIVE,
        f64::MIN_POSITIVE / 2.0,
        5e-324,
        -5e-324,
        f64::EPSILON,
        f64::INFINITY,
        f64::NEG_INFINITY,
        f64::NAN,
        4294967295.0,
        4294967296.5,
        18446744073709551615.0,
        9007199254740993.0,
        -2147483648.0,
        -2147483649.5,
        0.49999999999999994,
        4503599627370497.5,
    ]
}

/// Special values, arbitrary bits, and numbers of ordinary size.
fn samples() -> Vec<f64> {
    let mut v = special();
    let mut seed = 0x9E37_79B9_7F4A_7C15u64;
    for _ in 0..60 {
        v.push(f64::from_bits(next(&mut seed)));
    }
    for _ in 0..60 {
        let n = next(&mut seed) % 10_000_000;
        let k = next(&mut seed) % 7;
        let x = n as f64 / 10f64.powi(k as i32);
        v.push(if next(&mut seed) % 2 == 0 { x } else { -x });
    }
    v
}

#[test]
fn arithmetic_is_that_of_the_machine() {
    let v = samples();
    for &x in &v {
        for &y in &v {
            let (a, b) = (d(x), d(y));
            assert!(agree(a.add(b), x + y), "{x:e} + {y:e}");
            assert!(agree(a.sub(b), x - y), "{x:e} - {y:e}");
            assert!(agree(a.mul(b), x * y), "{x:e} * {y:e}");
            assert!(agree(a.div(b), x / y), "{x:e} / {y:e}");
        }
    }
}

#[test]
fn nearby_numbers_cancel_as_on_the_machine() {
    let mut seed = 88172645463325252u64;
    for _ in 0..4000 {
        let x = f64::from_bits(next(&mut seed));
        let y = f64::from_bits(x.to_bits().wrapping_add(next(&mut seed) % 16));
        assert!(agree(d(x).sub(d(y)), x - y));
        assert!(agree(d(x).add(d(-y)), x + -y));
    }
}

#[test]
fn comparisons_are_those_of_the_machine() {
    let v = samples();
    for &x in &v {
        for &y in &v {
            let (a, b) = (d(x), d(y));
            assert_eq!(a.lt(b), x < y);
            assert_eq!(a.le(b), x <= y);
            assert_eq!(a.gt(b), x > y);
            assert_eq!(a.ge(b), x >= y);
            assert_eq!(a.same(b), x == y);
            if x != 0.0 || y != 0.0 {
                assert!(agree(a.max(b), x.max(y)), "max {x:e} {y:e}");
                assert!(agree(a.min(b), x.min(y)), "min {x:e} {y:e}");
            }
        }
    }
    for &x in &v {
        assert!(agree(d(x).clamp(d(0.6), d(2.0)), x.clamp(0.6, 2.0)));
        assert!(agree(d(x).negate(), -x));
        assert!(agree(d(x).abs(), x.abs()));
    }
}

#[test]
fn rounding_is_that_of_the_machine() {
    for x in samples() {
        assert!(agree(d(x).floor(), x.floor()), "floor {x:e}");
        assert!(agree(d(x).ceil(), x.ceil()), "ceil {x:e}");
        assert!(agree(d(x).round(), x.round()), "round {x:e}");
        assert!(agree(d(x).sqrt(), x.sqrt()), "sqrt {x:e}");
        assert_eq!(d(x).to_u64(), x as u64);
        assert_eq!(d(x).to_u32(), x as u32);
        assert_eq!(d(x).to_i32(), x as i32);
    }
}

#[test]
fn integers_become_doubles_as_on_the_machine() {
    let mut seed = 42u64;
    for n in [0u64, 1, 2, 1 << 53, (1 << 53) + 1, (1 << 53) + 3, u64::MAX, u64::MAX - 1024] {
        assert!(agree(Double::from_u64(n), n as f64));
    }
    for _ in 0..2000 {
        let n = next(&mut seed);
        assert!(agree(Double::from_u64(n), n as f64));
        assert!(agree(Double::from_i32(n as i32), (n as i32) as f64));
    }
    assert!(agree(Double::from_i32(i32::MIN), i32::MIN as f64));
    assert!(agree(Double::ratio(1, 10), 0.1));
    assert!(agree(Double::ratio(15, 1000), 0.015));
    assert!(agree(Double::ratio(1, 1_000_000_000_000_000_000), 1e-18));
    assert!(agree(Double::ratio(25, 100), 0.25));
}

#[test]
fn powers_of_ten_are_exact() {
    for k in 0..23u32 {
        assert!(agree(power_of_ten(k), 10f64.powi(k as i32)), "10^{k}");
    }
    assert!(agree(power_of_ten(400), f64::INFINITY));
    assert!(agree(power_of_ten(u32::MAX), 0.1));
}

#[test]
fn decimals_are_written_as_by_the_machine() {
    for x in samples() {
        for k in [0usize, 1, 2, 4, 6, 8] {
            let mut s = String::from(">");
            push_fixed(&mut s, d(x), k);
            assert_eq!(s, format!(">{:.*}", k, x), "{x:e}");
            let mut s = String::new();
            push_signed_fixed(&mut s, d(x), k);
            assert_eq!(s, format!("{:+.*}", k, x), "{x:e}");
        }
    }
}

#[test]
fn numbers_are_read_as_by_the_machine() {
    let mut texts: Vec<String> = Vec::new();
    for x in samples() {
        texts.push(format!("{}", x));
        texts.push(format!("{:e}", x));
        texts.push(format!("{:.3}", x));
    }
    for t in [
        "", ".", "+", "-", "e5", "1e", "1e+", "1.", ".5", "+.5e-3", "-0", "-0.0", "1_000", " 1", "1 ",
        "inf", "-inf", "+Infinity", "infinit", "NaN", "-nan", "nanx", "0x10", "1e400", "-1e400",
        "1e-400", "123456789012345678901234567890", "0.000000000000000000000000000001234",
        "9007199254740993", "9007199254740992.999999999999999999", "2.4703282292062328e-324",
        "2.4703282292062327e-324", "1.7976931348623159e308", "1.7976931348623158e308",
        "00000000000000000000000000000000000000012", "1e99999999999999999999", "0e99999999999999999999",
        "1e-99999999999999999999", "24123.5", "0.001", "١", "1,5", "12e3.4",
    ] {
        texts.push(t.to_string());
    }
    for t in &texts {
        match (read_double(t), t.parse::<f64>()) {
            (Some(x), Ok(y)) => assert!(agree(x, y), "{t}"),
            (None, Err(_)) => {}
            (a, b) => panic!("{t:?}: {a:?} against {b:?}"),
        }
    }
}
