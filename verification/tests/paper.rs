use proof_terminal::double::Double;
use proof_terminal::paper::{
    limit_crosses, required_margin, round_usd, PaperAccount, DEFAULT_LEVERAGE, STARTING_CASH,
};

fn d(x: f64) -> Double {
    Double { bits: x.to_bits() }
}

fn f(x: Double) -> f64 {
    f64::from_bits(x.bits)
}

#[test]
fn market_long_opens_and_close_realizes() {
    let mut account = PaperAccount::new();
    account
        .place("SOL", true, false, d(2.0), d(100.0), d(100.0))
        .unwrap();
    assert_eq!(account.positions.len(), 1);
    assert_eq!(f(account.positions[0].size), 2.0);
    account
        .place("SOL", false, false, d(2.0), d(110.0), d(110.0))
        .unwrap();
    assert!(account.positions.is_empty());
    assert!((f(account.cash) - (f64::from_bits(STARTING_CASH) + 20.0)).abs() < 1e-9);
}

#[test]
fn resting_limit_fills_on_mark() {
    let mut account = PaperAccount::new();
    let fill = account
        .place("SOL", true, true, d(1.0), d(90.0), d(100.0))
        .unwrap();
    assert!(fill.is_none());
    assert_eq!(account.orders.len(), 1);
    let fills = account.mark("SOL", d(89.0));
    assert_eq!(fills.len(), 1);
    assert!(account.orders.is_empty());
    assert_eq!(f(account.positions[0].entry), 90.0);
}

#[test]
fn rejects_when_margin_exceeds_cash() {
    let mut account = PaperAccount::new();
    let error = account
        .place("SOL", true, false, d(10_000.0), d(100.0), d(100.0))
        .unwrap_err();
    assert!(error.contains("margin"));
    assert_eq!(error, "need 100000.00 USDC margin, available 10000.00");
    assert!(account.positions.is_empty());
}

#[test]
fn rejects_what_is_not_usable() {
    let mut account = PaperAccount::default();
    for size in [0.0, -1.0, f64::NAN, f64::INFINITY] {
        let error = account.place("SOL", true, false, d(size), d(1.0), d(1.0));
        assert_eq!(error.unwrap_err(), "size must be greater than 0");
    }
    let error = account.place("SOL", true, false, d(1.0), d(0.0), d(1.0));
    assert_eq!(error.unwrap_err(), "price must be greater than 0");
    let error = account.place("SOL", true, false, d(1.0), d(1.0), d(f64::NAN));
    assert_eq!(error.unwrap_err(), "no mark yet");
    assert_eq!(account.next_id, 1);
}

#[test]
fn constants_are_what_they_are_called() {
    assert_eq!(f64::from_bits(STARTING_CASH), 10_000.0);
    assert_eq!(f64::from_bits(DEFAULT_LEVERAGE), 10.0);
}

#[test]
fn growing_averages_the_entry() {
    let mut account = PaperAccount::new();
    account
        .place("SOL", true, false, d(1.0), d(100.0), d(100.0))
        .unwrap();
    account
        .place("SOL", true, false, d(3.0), d(120.0), d(120.0))
        .unwrap();
    assert_eq!(account.positions.len(), 1);
    assert_eq!(f(account.positions[0].size), 4.0);
    assert_eq!(f(account.positions[0].entry), 115.0);
}

#[test]
fn closing_a_part_keeps_the_entry() {
    let mut account = PaperAccount::new();
    account
        .place("SOL", true, false, d(4.0), d(100.0), d(100.0))
        .unwrap();
    let fill = account
        .place("SOL", false, false, d(1.0), d(90.0), d(90.0))
        .unwrap()
        .unwrap();
    assert_eq!(f(fill.realized), -10.0);
    assert_eq!(f(account.positions[0].size), 3.0);
    assert_eq!(f(account.positions[0].entry), 100.0);
}

#[test]
fn turning_over_starts_a_new_entry() {
    let mut account = PaperAccount::new();
    account
        .place("SOL", false, false, d(1.0), d(100.0), d(100.0))
        .unwrap();
    let fill = account
        .place("SOL", true, false, d(3.0), d(80.0), d(80.0))
        .unwrap()
        .unwrap();
    assert_eq!(f(fill.realized), 20.0);
    assert_eq!(f(account.positions[0].size), 2.0);
    assert_eq!(f(account.positions[0].entry), 80.0);
}

#[test]
fn short_round_trip_gains_on_the_way_down() {
    let mut account = PaperAccount::new();
    account
        .place("BTC", false, false, d(0.5), d(60_000.0), d(60_000.0))
        .unwrap();
    account
        .place("BTC", true, false, d(0.5), d(59_000.0), d(59_000.0))
        .unwrap();
    assert!(account.positions.is_empty());
    assert_eq!(f(account.fills[0].realized), 500.0);
    assert_eq!(f(account.cash), 10_500.0);
}

#[test]
fn cancel_undoes_a_resting_order() {
    let mut account = PaperAccount::new();
    account
        .place("SOL", true, true, d(1.0), d(90.0), d(100.0))
        .unwrap();
    assert_eq!(f(account.available()), 9_991.0);
    assert!(account.cancel(1));
    assert!(!account.cancel(1));
    assert_eq!(f(account.available()), 10_000.0);
    assert_eq!(account.next_id, 2);
}

#[test]
fn marking_twice_fills_once() {
    let mut account = PaperAccount::new();
    account
        .place("SOL", false, true, d(1.0), d(110.0), d(100.0))
        .unwrap();
    account
        .place("ETH", true, true, d(1.0), d(90.0), d(100.0))
        .unwrap();
    assert!(account.mark("SOL", d(f64::NAN)).is_empty());
    assert_eq!(account.mark("SOL", d(111.0)).len(), 1);
    assert!(account.mark("SOL", d(111.0)).is_empty());
    assert_eq!(account.orders.len(), 1);
    assert_eq!(account.orders[0].symbol, "ETH");
    assert_eq!(f(account.positions[0].size), -1.0);
}

#[test]
fn a_crossing_limit_fills_at_its_price() {
    let mut account = PaperAccount::new();
    let fill = account
        .place("SOL", true, true, d(1.0), d(101.0), d(100.0))
        .unwrap()
        .unwrap();
    assert_eq!(f(fill.price), 101.0);
    assert!(limit_crosses(false, d(99.0), d(100.0)));
    assert!(!limit_crosses(false, d(101.0), d(100.0)));
}

#[test]
fn fills_keep_to_forty_newest_first() {
    let mut account = PaperAccount::new();
    for i in 0..45 {
        account
            .place("SOL", true, false, d(0.001), d(1.0), d(1.0 + i as f64))
            .unwrap();
    }
    assert_eq!(account.fills.len(), 40);
    assert_eq!(f(account.fills[0].price), 45.0);
    assert_eq!(f(account.fills[39].price), 6.0);
}

#[test]
fn equity_counts_what_has_a_mark() {
    let mut account = PaperAccount::new();
    account
        .place("SOL", true, false, d(2.0), d(100.0), d(100.0))
        .unwrap();
    account
        .place("BTC", false, false, d(1.0), d(50.0), d(50.0))
        .unwrap();
    let equity = account.equity(|symbol| if symbol == "SOL" { Some(d(105.0)) } else { None });
    assert_eq!(f(equity), 10_010.0);
    let equity = account.equity(|_| Some(d(60.0)));
    assert_eq!(f(equity), 10_000.0 - 80.0 - 10.0);
}

#[test]
fn margin_and_dollars() {
    assert_eq!(f(required_margin(d(-2.0), d(50.0), d(10.0))), 10.0);
    assert_eq!(f(required_margin(d(2.0), d(50.0), d(0.5))), 100.0);
    assert_eq!(round_usd(d(1234.567)), "1234.57");
    assert_eq!(round_usd(d(-0.001)), "-0.00");
}

#[test]
fn other_markets_keep_their_positions() {
    let mut account = PaperAccount::new();
    for symbol in ["SOL", "BTC", "ETH"] {
        account
            .place(symbol, true, false, d(1.0), d(10.0), d(10.0))
            .unwrap();
    }
    account
        .place("BTC", false, false, d(1.0), d(11.0), d(11.0))
        .unwrap();
    let held: Vec<&str> = account.positions.iter().map(|p| p.symbol.as_str()).collect();
    assert_eq!(held, vec!["SOL", "ETH"]);
    assert_eq!(f(account.positions[1].entry), 10.0);
}

#[test]
fn a_fill_at_the_mark_keeps_the_equity() {
    let marks = [("SOL", 101.3), ("BTC", 59_871.7), ("ETH", 3_333.33)];
    let quote = |symbol: &str| marks.iter().find(|m| m.0 == symbol).map(|m| d(m.1));
    let mut account = PaperAccount::new();
    account
        .place("SOL", true, false, d(3.7), d(90.0), d(97.1))
        .unwrap();
    account
        .place("BTC", false, false, d(0.013), d(60_000.0), d(60_123.4))
        .unwrap();
    let orders = [
        ("ETH", true, 0.31),
        ("SOL", true, 1.9),
        ("SOL", false, 2.3),
        ("BTC", true, 0.013),
        ("SOL", false, 5.1),
        ("SOL", false, 0.7),
    ];
    for (symbol, is_long, size) in orders {
        let mark = quote(symbol).unwrap();
        let before = f(account.equity(quote));
        account.place(symbol, is_long, false, d(size), mark, mark).unwrap();
        let after = f(account.equity(quote));
        assert!((after - before).abs() < 1e-9, "{symbol}: {before} {after}");
    }
    assert_eq!(account.positions.len(), 2);
}

#[test]
fn what_a_full_close_drops_is_next_to_nothing() {
    let mut account = PaperAccount::new();
    account
        .place("SOL", true, false, d(1.000_000_000_5), d(100.0), d(100.0))
        .unwrap();
    let quote = |_: &str| Some(d(200.0));
    let before = f(account.equity(quote));
    account
        .place("SOL", false, false, d(1.0), d(200.0), d(200.0))
        .unwrap();
    assert!(account.positions.is_empty());
    let after = f(account.equity(quote));
    assert!(before > after && before - after < 100.0 * 1e-9 + 1e-10);
}

#[test]
fn ids_grow_and_never_come_back() {
    let mut account = PaperAccount::new();
    let mut seen: Vec<u64> = Vec::new();
    for round in 0..6 {
        account
            .place("SOL", true, true, d(0.1), d(90.0), d(100.0))
            .unwrap();
        let id = account.orders.last().unwrap().id;
        assert!(id >= 1 && seen.iter().all(|old| *old < id));
        assert!(account.orders.windows(2).all(|pair| pair[0].id < pair[1].id));
        seen.push(id);
        match round % 3 {
            0 => assert!(account.cancel(id)),
            1 => assert!(!account.mark("SOL", d(89.0)).is_empty()),
            _ => {
                account
                    .place("SOL", true, false, d(0.1), d(100.0), d(100.0))
                    .unwrap();
            }
        }
    }
    assert_eq!(seen, vec![1, 2, 3, 5, 6, 7]);
}
