//! Doubles by their bit patterns, against the machine's own.
use wayhud::decimal::parse_double;
use wayhud::double::Double;
use wayhud::timeline::clamp;

fn d(x: f64) -> Double {
    Double::from_bits(x.to_bits())
}

fn f(x: Double) -> f64 {
    f64::from_bits(x.to_bits())
}

/// Equal as doubles: the same bits, or both not a number.
fn agree(got: Double, want: f64) -> bool {
    got.to_bits() == want.to_bits() || (got.is_nan() && want.is_nan())
}

/// Patterns that cover the special cases and the range in between.
fn samples() -> Vec<f64> {
    let mut out = vec![
        0.0,
        -0.0,
        1.0,
        -1.0,
        0.1,
        0.5,
        2.0 / 3.0,
        1000.0,
        f64::MIN_POSITIVE,
        5e-324,
        -5e-324,
        2.2250738585072009e-308,
        f64::MAX,
        -f64::MAX,
        f64::INFINITY,
        f64::NEG_INFINITY,
        f64::NAN,
        9007199254740991.0,
        9007199254740993.0,
        1.8446744073709552e19,
    ];
    let mut x: u64 = 0x9e37_79b9_7f4a_7c15;
    for i in 0..140 {
        x ^= x << 13;
        x ^= x >> 7;
        x ^= x << 17;
        out.push(f64::from_bits(x));
        // Close exponents, where sums cancel and round.
        out.push(f64::from_bits((x >> 12) | ((1000 + (i % 60)) << 52)));
    }
    out
}

#[test]
fn sums_and_differences_round_to_nearest_even() {
    let all = samples();
    for &a in &all {
        for &b in &all {
            assert!(agree(d(a).plus(d(b)), a + b), "{a:e} + {b:e}");
            assert!(agree(d(a).minus(d(b)), a - b), "{a:e} - {b:e}");
        }
    }
}

#[test]
fn products_and_quotients_round_to_nearest_even() {
    let all = samples();
    for &a in &all {
        for &b in &all {
            assert!(agree(d(a).times(d(b)), a * b), "{a:e} * {b:e}");
            assert!(agree(d(a).over(d(b)), a / b), "{a:e} / {b:e}");
        }
    }
}

#[test]
fn the_order_is_that_of_ieee_754() {
    let all = samples();
    for &a in &all {
        assert_eq!(d(a).is_nan(), a.is_nan());
        assert_eq!(d(a).is_finite(), a.is_finite());
        for &b in &all {
            assert_eq!(d(a).lt(d(b)), a < b, "{a:e} < {b:e}");
            assert_eq!(d(a).le(d(b)), a <= b, "{a:e} <= {b:e}");
            if a != b || a.to_bits() == b.to_bits() {
                assert!(agree(d(a).max(d(b)), a.max(b)), "max {a:e} {b:e}");
                assert!(agree(d(a).min(d(b)), a.min(b)), "min {a:e} {b:e}");
            }
        }
        if !a.is_nan() {
            assert!(agree(d(a).neg(), -a));
        }
        assert!(agree(clamp(d(a)), a.clamp(0.0, 1.0)));
    }
}

#[test]
fn whole_numbers_convert_both_ways() {
    for n in [0, 1, 2, 1000, (1 << 53) - 1, 1 << 53, (1 << 53) + 1, u64::MAX - 1, u64::MAX] {
        assert!(agree(Double::from_word(n), n as f64), "{n}");
    }
    for n in [0, 1, -1, 1000, -48_000, i32::MAX as i64, i32::MIN as i64, i64::MAX, i64::MIN] {
        assert!(agree(Double::from_int(n), n as f64), "{n}");
    }
    let mut all = samples();
    for i in 0..200 {
        let x = f64::from(i) / 8.0 - 5.0;
        all.push(x);
        all.push(x * 1e6);
        all.push(x * 1e9 + 0.5);
    }
    for x in all {
        assert_eq!(d(x).to_word(), x as u64, "{x:e} as u64");
        assert_eq!(d(x).to_word_up(), x.ceil() as u64, "{x:e} up");
        assert_eq!(d(x).to_word_nearest(), x.round() as u64, "{x:e} nearest");
        assert_eq!(d(x).to_i32(), x as i32, "{x:e} as i32");
        assert_eq!(d(x).to_i32_up(), x.ceil() as i32, "{x:e} up as i32");
        if x >= 0.0 && x.is_sign_positive() {
            assert!(agree(d(x).ceil(), x.ceil()), "{x:e} ceil");
            assert!(agree(d(x).floor(), x.floor()), "{x:e} floor");
        }
    }
}

#[test]
fn decimals_read_as_the_nearest_double() {
    for text in [
        "0", "-0", "1", "+1", "12", "0.7", ".5", "5.", "1e3", "1E-3", "1e+3", "3.14159", "0.1",
        "123456789012345678901234567890", "1e308", "1.7976931348623157e308",
        "1.7976931348623158e308", "1.7976931348623159e308", "1e309", "1e400", "-1e400",
        "2.2250738585072014e-308", "4.9e-324", "2.4703282292062327e-324",
        "2.4703282292062328e-324", "1e-400", "0e999999999999999999999999999999",
        "1e-999999999999999999999999999999999999999999", "1e99999999999999999999999999999999999",
        "9007199254740993", "9007199254740992.9999", "0.000000000000000000000000000001",
        "inf", "Infinity", "-INF", "nan", "NaN", "-nan", "+infinity",
        "179769313486231580793728971405301e276",
        "8.5e-1", "1.00000000000000011102230246251565404236316680908203125",
        "1.00000000000000011102230246251565404236316680908203124",
        "1.00000000000000011102230246251565404236316680908203126",
    ] {
        let want: f64 = text.parse().unwrap();
        let got = parse_double(text).unwrap();
        assert!(agree(got, want), "{text}: {:e} instead of {want:e}", f(got));
    }
}

#[test]
fn what_is_no_decimal_is_refused() {
    for text in [
        "", " ", "+", "-", ".", "e5", "1e", "1e+", "1 ", " 1", "1.2.3", "0x10", "1_000", "infin",
        "nann", "--1", "+-1", "1e5.5", "wide", "1f", "١",
    ] {
        assert!(text.parse::<f64>().is_err(), "{text:?}");
        assert!(parse_double(text).is_none(), "{text:?}");
    }
}

#[test]
fn printed_doubles_read_back() {
    for x in samples() {
        if x.is_finite() {
            let text = format!("{x:e}");
            assert!(agree(parse_double(&text).unwrap(), x), "{text}");
            let short = format!("{:.3}", x / 1e3);
            let want: f64 = short.parse().unwrap();
            assert!(agree(parse_double(&short).unwrap(), want), "{short}");
        }
    }
}
