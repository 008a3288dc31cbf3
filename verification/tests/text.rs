use satsbudget::decimal::{fixed, numeral_text};
use satsbudget::double::Double;
use satsbudget::reading::read_number;

fn d(x: f64) -> Double {
    Double::from_bits(x.to_bits())
}

fn samples() -> Vec<f64> {
    let mut v = vec![
        0.0,
        -0.0,
        0.125,
        0.375,
        0.5,
        1.5,
        2.5,
        -0.001,
        0.005,
        1.005,
        99.995,
        999.999,
        1e-8,
        5e-9,
        123456789.987654321,
        1e15,
        1e16,
        1e21,
        1e22,
        1e300,
        f64::MAX,
        f64::MIN,
        f64::MIN_POSITIVE,
        5e-324,
        f64::INFINITY,
        f64::NEG_INFINITY,
        f64::NAN,
    ];
    let mut seed: u64 = 12345;
    for _ in 0..200 {
        seed = seed.wrapping_mul(6364136223846793005).wrapping_add(1442695040888963407);
        v.push((seed >> 24) as f64 / 1e7);
        v.push(-((seed >> 40) as f64) / 1024.0);
        v.push(f64::from_bits(seed ^ (seed >> 29)));
    }
    v
}

#[test]
fn fixed_notation_agrees_with_the_standard_library() {
    for x in samples() {
        assert_eq!(fixed(d(x), 0), format!("{:.0}", x));
        assert_eq!(fixed(d(x), 2), format!("{:.2}", x));
        assert_eq!(fixed(d(x), 8), format!("{:.8}", x));
    }
}

#[test]
fn fixed_notation_of_chosen_amounts() {
    assert_eq!(fixed(d(0.125), 2), "0.12");
    assert_eq!(fixed(d(0.375), 2), "0.38");
    assert_eq!(fixed(d(1000.0), 2), "1000.00");
    assert_eq!(fixed(d(0.01), 8), "0.01000000");
    assert_eq!(fixed(d(-0.001), 2), "-0.00");
    assert_eq!(fixed(d(f64::NAN), 2), "NaN");
    assert_eq!(fixed(d(f64::NEG_INFINITY), 2), "-inf");
}

#[test]
fn numerals_of_counts() {
    for n in [0u64, 7, 10, 65000, 100_000_000, u64::MAX] {
        assert_eq!(numeral_text(n), format!("{}", n));
    }
}

fn agrees(text: &str) {
    match (read_number(text), text.parse::<f64>()) {
        (Some(a), Ok(b)) => {
            if b.is_nan() {
                assert!(a.is_nan(), "{}", text);
            } else {
                assert_eq!(a.to_bits(), b.to_bits(), "{}", text);
            }
        }
        (None, Err(_)) => {}
        (a, b) => panic!("{}: {:?} against {:?}", text, a, b),
    }
}

#[test]
fn numbers_are_read_as_the_standard_library_reads_them() {
    for text in [
        "65000.12000000",
        "0",
        "-0",
        "+0.0",
        "1",
        "+1.5",
        "-2.25",
        ".5",
        "5.",
        "1.e3",
        "00012.500",
        "1e5",
        "1E-5",
        "1e+5",
        "123456789012345678901234567890",
        "0.1",
        "0.000001",
        "9007199254740993",
        "9007199254740992.9999999999999999999999",
        "9007199254740993.0000000000000000000001",
        "1.7976931348623157e308",
        "1.7976931348623158e308",
        "1.7976931348623159e308",
        "2e308",
        "4.9e-324",
        "2.4703282292062327e-324",
        "2.4703282292062328e-324",
        "2.2250738585072011e-308",
        "1e-400",
        "1e400",
        "0e99999999999999999999999999",
        "1e99999999999999999999999999",
        "1e-99999999999999999999999999",
        "inf",
        "-Infinity",
        "INF",
        "+inf",
        "nan",
        "-NaN",
    ] {
        agrees(text);
        assert!(read_number(text).is_some(), "{}", text);
    }
}

#[test]
fn texts_that_are_no_numbers_are_refused() {
    for text in [
        "", "+", "-", ".", "e5", "1e", "1e+", "1.2.3", " 1", "1 ", "--1", "1_000", "0x10", "infin",
        "1,5", "\u{0661}", "+-1", ".e1",
    ] {
        agrees(text);
        assert_eq!(read_number(text), None, "{}", text);
    }
}

#[test]
fn printed_numbers_are_read_back() {
    for x in samples() {
        agrees(&format!("{}", x));
        agrees(&format!("{:e}", x));
        agrees(&format!("{:.3}", x));
    }
}

#[test]
fn numerals_are_read_back() {
    for n in [0u64, 9, 10, 48, 65000, 9007199254740993, u64::MAX] {
        assert_eq!(read_number(&numeral_text(n)), Some(Double::from_count(n)));
    }
}
