use satsbudget::double::Double;

fn d(x: f64) -> Double {
    Double::from_bits(x.to_bits())
}

fn same(r: Double, x: f64) -> bool {
    if x.is_nan() {
        r.is_nan()
    } else {
        r.to_bits() == x.to_bits()
    }
}

fn specials() -> Vec<f64> {
    let mut v = vec![
        0.0,
        -0.0,
        1.0,
        -1.0,
        0.5,
        0.1,
        1e-6,
        100.0,
        100_000_000.0,
        3.0,
        1.0 / 3.0,
        f64::MAX,
        f64::MIN,
        f64::MIN_POSITIVE,
        -f64::MIN_POSITIVE,
        5e-324,
        -5e-324,
        1e-310,
        f64::INFINITY,
        f64::NEG_INFINITY,
        f64::NAN,
        f64::EPSILON,
        1.0 + f64::EPSILON,
        1.0 - f64::EPSILON / 2.0,
        9007199254740991.0,
        9007199254740992.0,
        9007199254740993.0,
        18446744073709551615.0,
        65000.12,
        1e300,
        1e-300,
    ];
    let mut seed: u64 = 0x9E3779B97F4A7C15;
    for i in 0..300 {
        seed = seed.wrapping_mul(6364136223846793005).wrapping_add(1442695040888963407);
        let x = f64::from_bits(seed ^ (seed >> 31));
        v.push(x);
        if i % 2 == 0 {
            // Numbers of moderate size meet more often than random patterns do.
            let m = (seed >> 20) as f64 / 1e9;
            v.push(m);
            v.push(-m / 7.0);
        }
    }
    v
}

#[test]
fn sums_agree_with_the_machine() {
    let v = specials();
    for a in &v {
        for b in &v {
            assert!(same(d(*a).plus(d(*b)), a + b), "{:?} + {:?}", a, b);
            assert!(same(d(*a).minus(d(*b)), a - b), "{:?} - {:?}", a, b);
        }
    }
}

#[test]
fn products_agree_with_the_machine() {
    let v = specials();
    for a in &v {
        for b in &v {
            assert!(same(d(*a).times(d(*b)), a * b), "{:?} * {:?}", a, b);
        }
    }
}

#[test]
fn quotients_agree_with_the_machine() {
    let v = specials();
    for a in &v {
        for b in &v {
            assert!(same(d(*a).over(d(*b)), a / b), "{:?} / {:?}", a, b);
        }
    }
}

#[test]
fn comparisons_agree_with_the_machine() {
    let v = specials();
    for a in &v {
        for b in &v {
            assert_eq!(d(*a).lt(d(*b)), a < b);
            assert_eq!(d(*a).le(d(*b)), a <= b);
        }
    }
}

#[test]
fn integer_parts_agree_with_the_machine() {
    for a in &specials() {
        assert_eq!(d(*a).to_integer(), *a as u64, "{:?}", a);
    }
    assert_eq!(d(-3.5).to_integer(), 0);
    assert_eq!(d(f64::NAN).to_integer(), 0);
    assert_eq!(d(1e30).to_integer(), u64::MAX);
    assert_eq!(d(64999.99).to_integer(), 64999);
}

#[test]
fn counts_and_fractions_agree_with_the_machine() {
    for n in [0u64, 1, 3, 100, 1000, 1 << 53, (1 << 53) + 1, u64::MAX - 1, u64::MAX] {
        assert_eq!(Double::from_count(n).to_bits(), (n as f64).to_bits());
    }
    assert_eq!(Double::fraction(1, 1_000_000).to_bits(), 1e-6f64.to_bits());
    assert_eq!(Double::fraction(3, 100).to_bits(), 0.03f64.to_bits());
    assert_eq!(Double::fraction(1, 10).to_bits(), 0.10f64.to_bits());
    assert_eq!(Double::fraction(1, 4).to_bits(), 0.25f64.to_bits());
}

#[test]
fn arithmetic_laws_on_values() {
    let one = Double::from_count(1);
    let x = d(65000.12);
    let y = d(-0.3);
    assert_eq!(x.plus(y), y.plus(x));
    assert_eq!(x.times(y), y.times(x));
    assert_eq!(x.times(one), x);
    assert_eq!(x.over(one), x);
    assert_eq!(x.minus(x), Double::from_count(0));
    assert_eq!(Double::from_count(0).negated().plus(y), y);
    assert!(y.plus(one).le(x.plus(one)));
    assert!(x.over(d(1.03)).le(x));
    assert!(x.le(x.times(d(1.5))));
}
