use proof_terminal::double::Double;
use proof_terminal::timeframe::Timeframe;

fn d(x: f64) -> Double {
    Double { bits: x.to_bits() }
}

#[test]
fn prices() {
    assert_eq!(proof_terminal::format::price(d(1000.0)), "1000.00");
    assert_eq!(proof_terminal::format::price(d(-12345.678)), "-12345.68");
    assert_eq!(proof_terminal::format::price(d(87.67)), "87.67");
    assert_eq!(proof_terminal::format::price(d(0.000123)), "0.000123");
    assert_eq!(proof_terminal::format::price(d(0.0)), "0");
    assert_eq!(proof_terminal::format::price(d(f64::NAN)), "\u{2014}");
}

#[test]
fn compact_numbers() {
    assert_eq!(proof_terminal::format::compact(d(2_500_000_000.0)), "2.50B");
    assert_eq!(proof_terminal::format::compact(d(-1_234_567.0)), "-1.23M");
    assert_eq!(proof_terminal::format::compact(d(1_500.0)), "1.50K");
    assert_eq!(proof_terminal::format::compact(d(12.5)), "12.5");
    assert_eq!(proof_terminal::format::compact(d(f64::INFINITY)), "\u{2014}");
}

#[test]
fn percents() {
    assert_eq!(proof_terminal::format::signed_percent(d(12.0676)), "+12.07%");
    assert_eq!(proof_terminal::format::signed_percent(d(-0.5)), "-0.50%");
    assert_eq!(proof_terminal::format::signed_percent(d(f64::NAN)), "\u{2014}");
    assert_eq!(proof_terminal::format::unsigned_percent(d(0.1936)), "0.1936%");
    assert_eq!(proof_terminal::format::unsigned_percent(d(f64::NAN)), "\u{2014}");
}

#[test]
fn sizes() {
    assert_eq!(proof_terminal::format::size(d(150.0)), "150.00");
    assert_eq!(proof_terminal::format::size(d(-99.99996)), "-100");
    assert_eq!(proof_terminal::format::size(d(12.345)), "12.345");
    assert_eq!(proof_terminal::format::size(d(0.5)), "0.5");
    assert_eq!(proof_terminal::format::size(d(f64::NAN)), "\u{2014}");
}

#[test]
fn clocks() {
    assert_eq!(
        proof_terminal::format::clock_label("2024-01-01T10:11:12.345Z"),
        "10:11:12"
    );
    assert_eq!(proof_terminal::format::clock_label("1700000000"), "22:13:20");
    assert_eq!(proof_terminal::format::clock_label("1700000000000"), "22:13:20");
    assert_eq!(proof_terminal::format::clock_label(" 61 "), "00:01:01");
    assert_eq!(proof_terminal::format::clock_label("-3661"), "23:-1:-1");
    assert_eq!(proof_terminal::format::clock_label("noon"), "noon");
    assert_eq!(proof_terminal::format::clock_label(""), "");
}

#[test]
fn widths_and_their_names() {
    for timeframe in Timeframe::all() {
        assert_eq!(Timeframe::from_api(timeframe.as_api()), Some(timeframe));
        assert_eq!(timeframe.label(), timeframe.as_api());
    }
    assert_eq!(Timeframe::from_api("2m"), None);
    assert_eq!(Timeframe::FourHours.duration_ms(), 14_400_000);
    let widths: Vec<i64> = Timeframe::all().iter().map(|t| t.duration_ms()).collect();
    assert!(widths.windows(2).all(|pair| pair[0] < pair[1]));
}
