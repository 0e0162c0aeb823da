use proof_terminal::double::Double;

fn d(x: f64) -> Double {
    Double { bits: x.to_bits() }
}

fn f(x: Double) -> f64 {
    f64::from_bits(x.bits)
}

fn agree(ours: Double, native: f64) -> bool {
    if native.is_nan() {
        f(ours).is_nan()
    } else {
        ours.bits == native.to_bits()
    }
}

/// Numbers at the edges of the format, and many between.
fn samples() -> Vec<f64> {
    let mut list = vec![
        0.0,
        -0.0,
        1.0,
        -1.0,
        0.1,
        0.2,
        0.3,
        1e-9,
        1e9,
        1e300,
        -1e300,
        f64::MAX,
        f64::MIN,
        f64::MIN_POSITIVE,
        f64::EPSILON,
        5e-324,
        -5e-324,
        2.2250738585072009e-308,
        f64::INFINITY,
        f64::NEG_INFINITY,
        f64::NAN,
        9007199254740993.0,
        4503599627370497.5,
        170.42,
        86.84,
    ];
    let mut state: u64 = 0x9e37_79b9_7f4a_7c15;
    for _ in 0..120 {
        state = state.wrapping_mul(6364136223846793005).wrapping_add(1442695040888963407);
        list.push(f64::from_bits(state ^ (state >> 29)));
        state = state.wrapping_mul(6364136223846793005).wrapping_add(1442695040888963407);
        list.push(((state >> 20) as f64 / 1e6) - 8_000_000.0);
        state = state.wrapping_mul(6364136223846793005).wrapping_add(1442695040888963407);
        list.push(f64::from_bits(0x3ff0_0000_0000_0000 | (state >> 12)));
    }
    list
}

#[test]
fn sums_and_differences_round_to_nearest() {
    let list = samples();
    for &a in &list {
        for &b in &list {
            assert!(agree(d(a).plus(d(b)), a + b), "{a:e} + {b:e}");
            assert!(agree(d(a).minus(d(b)), a - b), "{a:e} - {b:e}");
        }
    }
}

#[test]
fn products_round_to_nearest() {
    let list = samples();
    for &a in &list {
        for &b in &list {
            assert!(agree(d(a).times(d(b)), a * b), "{a:e} * {b:e}");
        }
    }
}

#[test]
fn quotients_round_to_nearest() {
    let list = samples();
    for &a in &list {
        for &b in &list {
            assert!(agree(d(a).over(d(b)), a / b), "{a:e} / {b:e}");
        }
    }
}

#[test]
fn order_follows_the_numbers() {
    let list = samples();
    for &a in &list {
        assert_eq!(d(a).is_finite(), a.is_finite());
        assert_eq!(d(a).is_positive(), a > 0.0);
        assert_eq!(d(a).to_whole(), a as i64);
        assert_eq!(d(a).round_to_whole(), a.round() as i64);
        for &b in &list {
            assert_eq!(d(a).is_below(d(b)), a < b);
            assert_eq!(d(a).is_at_most(d(b)), a <= b);
            assert_eq!(d(a).is_same(d(b)), a == b);
            if a != b {
                assert!(agree(d(a).max(d(b)), a.max(b)));
                assert!(agree(d(a).min(d(b)), a.min(b)));
            }
        }
    }
}

#[test]
fn fixed_notation_rounds_the_exact_value() {
    let mut list = samples();
    list.extend([0.125, 0.375, 0.5, 1.5, 2.5, 0.00005, 0.000015, 1234.565, 999.995]);
    for &a in &list {
        for places in [2usize, 4, 6] {
            let mut out = Vec::new();
            d(a).push_fixed(&mut out, places);
            let text: String = out.into_iter().collect();
            assert_eq!(text, format!("{a:.places$}"));
        }
        if a.is_finite() {
            assert_eq!(proof_terminal::format::signed_percent(d(a)), format!("{a:+.2}%"));
            assert_eq!(proof_terminal::format::unsigned_percent(d(a)), format!("{a:.4}%"));
        }
    }
}

#[test]
fn parsing_agrees() {
    let mut list: Vec<String> = [
        "0", "-0", "1", "+1", "1.", ".5", "-.5e1", "1e5", "1E-5", "1e+5", "123456789.123456789",
        "179769313486231570000e289", "1.7976931348623157e308", "1.7976931348623159e308", "1e309",
        "4.9e-324", "2.4703282292062327e-324", "2.4703282292062328e-324", "1e-400", "0e999999999999",
        "9007199254740993", "9007199254740992.5", "0.1", "0.30000000000000004", "1e", "e5", ".", "",
        "+", "1..2", "1e5.0", "1_000", "0x10", " 1", "1 ", "--1", "1e--5", "inf", "NaN", "-inf",
        "00000000000000000000000000000000000001", "0.000000000000000000000000000000000000001",
        "1e99999999999999999999", "1e-99999999999999999999",
    ]
    .iter()
    .map(|text| text.to_string())
    .collect();
    for value in samples() {
        list.push(format!("{value}"));
        list.push(format!("{value:e}"));
        list.push(format!("{value:.3}"));
    }
    for text in list {
        let chars: Vec<char> = text.chars().collect();
        let native = text.parse::<f64>().ok().filter(|value| value.is_finite());
        let ours = Double::parse(&chars);
        match (ours, native) {
            (Some(ours), Some(native)) => assert!(agree(ours, native), "{text}"),
            (None, None) => {}
            other => panic!("{text}: {other:?}"),
        }
    }
}

#[test]
fn whole_numbers_signs_and_powers_agree() {
    for value in samples() {
        assert_eq!(d(value).to_whole(), value as i64);
        assert_eq!(d(value).round_to_whole(), value.round() as i64);
        assert!(agree(d(value).signum(), value.signum()));
    }
    for n in [0, 1, -1, i64::MAX, i64::MIN, 9_007_199_254_740_993, -9_007_199_254_740_995] {
        assert!(agree(Double::from_signed(n), n as f64));
        assert!(agree(Double::from_unsigned(n as u64), n as u64 as f64));
    }
    for exponent in 0..23 {
        let native = format!("1e{exponent}").parse::<f64>().unwrap();
        assert!(agree(d(10.0).power(exponent), native));
    }
}

#[test]
fn single_precision_agrees() {
    let mut list: Vec<f32> = samples().iter().map(|value| *value as f32).collect();
    list.extend([
        f32::MAX,
        f32::MIN_POSITIVE,
        1e-45,
        1.1754942e-38,
        16_777_217.0,
        0.1,
        333.7,
        -7.25,
        3e-39,
    ]);
    for value in samples() {
        assert!(agree(d(value).to_single(), (value as f32) as f64), "{value:e}");
    }
    for x in [1e-40, 7e-46, 7.1e-46, 3.4028235e38, 3.4028236e38, 3.402823567e38, 2.1e-45, 1e-60] {
        assert!(agree(d(x).to_single(), (x as f32) as f64), "{x:e}");
    }
    for a in &list {
        for b in &list {
            let (x, y) = (d(*a as f64), d(*b as f64));
            assert!(agree(x.single_plus(y), (a + b) as f64), "{a} + {b}");
            assert!(agree(x.single_minus(y), (a - b) as f64), "{a} - {b}");
            assert!(agree(x.single_times(y), (a * b) as f64), "{a} * {b}");
            assert!(agree(x.single_over(y), (a / b) as f64), "{a} / {b}");
        }
    }
}

#[test]
fn results_lie_within_half_a_gap() {
    let ulp = |x: f64| f64::from_bits(x.abs().to_bits() + 1) - x.abs();
    for (a, b) in [(0.1, 0.2), (1e16, 1.0), (3.3, -3.299_999_999)] {
        let sum = f(d(a).plus(d(b)));
        let bigger = if f64::abs(a) > f64::abs(b) { (a, b) } else { (b, a) };
        let rest = bigger.1 - (sum - bigger.0);
        assert!(2.0 * rest.abs() <= ulp(sum), "{a} {b}");
    }
}
