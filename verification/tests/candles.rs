use proof_terminal::candles::{
    cached_candle, merge_candles, oldest_first, upsert_candle, window_candles, HISTORY_LIMIT,
    SCHEMA, SELECT_NEWEST, UPSERT_ROW,
};
use proof_terminal::double::Double;
use proof_terminal::market::{percent_change_from_candles, Candle};
use proof_terminal::timeframe::Timeframe;
use rusqlite::Connection;

fn d(x: f64) -> Double {
    Double { bits: x.to_bits() }
}

fn f(x: Double) -> f64 {
    f64::from_bits(x.bits)
}

fn bar(time_ms: i64, open: f64, high: f64, low: f64, close: f64, volume: f64) -> Candle {
    cached_candle(time_ms, d(open), d(high), d(low), d(close), d(volume))
}

fn flat(time_ms: i64) -> Candle {
    let price = time_ms as f64;
    bar(time_ms, price, price, price, price, 1.0)
}

fn upsert(connection: &Connection, symbol: &str, timeframe: Timeframe, candles: &[Candle]) {
    let mut statement = connection.prepare(UPSERT_ROW).unwrap();
    for candle in candles {
        statement
            .execute((
                symbol,
                timeframe.as_api(),
                candle.time_ms,
                f(candle.open),
                f(candle.high),
                f(candle.low),
                f(candle.close),
                f(candle.volume),
            ))
            .unwrap();
    }
}

fn load(connection: &Connection, symbol: &str, timeframe: Timeframe, limit: usize) -> Vec<Candle> {
    let mut statement = connection.prepare(SELECT_NEWEST).unwrap();
    let mut rows = statement
        .query((symbol, timeframe.as_api(), limit as i64))
        .unwrap();
    let mut candles = Vec::new();
    while let Some(row) = rows.next().unwrap() {
        candles.push(bar(
            row.get(0).unwrap(),
            row.get(1).unwrap(),
            row.get(2).unwrap(),
            row.get(3).unwrap(),
            row.get(4).unwrap(),
            row.get(5).unwrap(),
        ));
    }
    oldest_first(candles)
}

#[test]
fn upsert_replaces_forming_bar() {
    let connection = Connection::open(":memory:").unwrap();
    connection.execute_batch(SCHEMA).unwrap();
    let first = bar(1_000, 10.0, 11.0, 9.0, 10.5, 1.0);
    upsert(&connection, "SOL", Timeframe::OneMinute, &[first]);
    let updated = bar(1_000, 10.0, 12.0, 9.0, 11.5, 3.0);
    upsert(&connection, "SOL", Timeframe::OneMinute, &[updated]);
    let loaded = load(&connection, "SOL", Timeframe::OneMinute, 10);
    assert_eq!(loaded.len(), 1);
    assert_eq!(f(loaded[0].close), 11.5);
    assert_eq!(f(loaded[0].volume), 3.0);
}

#[test]
fn cache_gives_the_newest_bars_oldest_first() {
    let connection = Connection::open(":memory:").unwrap();
    connection.execute_batch(SCHEMA).unwrap();
    let series: Vec<Candle> = (1..=5).map(flat).collect();
    upsert(&connection, "SOL", Timeframe::OneMinute, &series);
    upsert(&connection, "BTC", Timeframe::OneMinute, &[flat(9)]);
    let loaded = load(&connection, "SOL", Timeframe::OneMinute, 3);
    let times: Vec<i64> = loaded.iter().map(|candle| candle.time_ms).collect();
    assert_eq!(times, vec![3, 4, 5]);
    assert!(load(&connection, "SOL", Timeframe::OneHour, 3).is_empty());
}

#[test]
fn window_keeps_latest_when_offset_is_zero() {
    let candles = (0..10).map(flat).collect::<Vec<_>>();
    let window = window_candles(&candles, 4, 0);
    assert_eq!(window.len(), 4);
    assert_eq!(window[0].time_ms, 6);
    assert_eq!(window[3].time_ms, 9);
    let panned = window_candles(&candles, 4, 3);
    assert_eq!(panned[0].time_ms, 3);
    assert_eq!(panned[3].time_ms, 6);
    let clamped = window_candles(&candles, 4, 99);
    assert_eq!(clamped[0].time_ms, 0);
}

#[test]
fn window_of_few_bars() {
    assert!(window_candles(&[], 4, 0).is_empty());
    let candles = (0..3).map(flat).collect::<Vec<_>>();
    assert_eq!(window_candles(&candles, 0, 0).len(), 1);
    assert_eq!(window_candles(&candles, 0, 0)[0].time_ms, 2);
    assert_eq!(window_candles(&candles, 80, 2).len(), 3);
}

#[test]
fn twenty_four_hour_change_uses_first_open() {
    let candles = [
        bar(0, 80.0, 81.0, 79.0, 80.5, 1.0),
        bar(1, 80.5, 88.0, 80.0, 88.0, 2.0),
    ];
    let change = f(percent_change_from_candles(&candles).unwrap());
    assert!((change - 10.0).abs() < 1e-9);
}

#[test]
fn no_change_without_a_first_open() {
    assert!(percent_change_from_candles(&[]).is_none());
    assert!(percent_change_from_candles(&[bar(0, 0.0, 1.0, 0.0, 1.0, 1.0)]).is_none());
}

#[test]
fn upsert_rewrites_or_sorts_in() {
    let mut series = vec![flat(1), flat(3)];
    upsert_candle(&mut series, bar(3, 7.0, 7.0, 7.0, 7.0, 7.0));
    assert_eq!(series.len(), 2);
    assert_eq!(f(series[1].close), 7.0);
    upsert_candle(&mut series, flat(2));
    let times: Vec<i64> = series.iter().map(|candle| candle.time_ms).collect();
    assert_eq!(times, vec![1, 2, 3]);
}

#[test]
fn a_full_series_drops_its_oldest() {
    let mut series: Vec<Candle> = (0..HISTORY_LIMIT as i64).map(flat).collect();
    upsert_candle(&mut series, flat(HISTORY_LIMIT as i64));
    assert_eq!(series.len(), HISTORY_LIMIT);
    assert_eq!(series[0].time_ms, 1);
    assert_eq!(series[HISTORY_LIMIT - 1].time_ms, HISTORY_LIMIT as i64);
    upsert_candle(&mut series, flat(0));
    assert_eq!(series.len(), HISTORY_LIMIT);
    assert_eq!(series[0].time_ms, 1);
}

#[test]
fn merging_sorts_and_keeps_one_bar_for_each_time() {
    let merged = merge_candles(
        vec![flat(2), flat(5)],
        vec![flat(9), bar(2, 1.0, 1.0, 1.0, 8.0, 1.0), flat(4)],
    );
    let times: Vec<i64> = merged.iter().map(|candle| candle.time_ms).collect();
    assert_eq!(times, vec![2, 4, 5, 9]);
    assert_eq!(f(merged[0].close), 8.0);
}

#[test]
fn the_second_of_two_upserts_wins() {
    let mut once = vec![flat(1), flat(5)];
    let mut twice = vec![flat(1), flat(5)];
    let last = bar(3, 1.0, 2.0, 0.5, 1.75, 4.0);
    upsert_candle(&mut twice, flat(3));
    upsert_candle(&mut twice, last);
    upsert_candle(&mut once, last);
    assert_eq!(once, twice);
}

#[test]
fn bars_are_equal_as_numbers_are() {
    let zero = bar(0, 0.0, 0.0, 0.0, 0.0, 0.0);
    assert_eq!(zero, bar(0, -0.0, 0.0, -0.0, 0.0, 0.0));
    assert_ne!(zero, bar(1, 0.0, 0.0, 0.0, 0.0, 0.0));
    let none = bar(0, f64::NAN, 0.0, 0.0, 0.0, 0.0);
    assert_ne!(none, none);
    let mut counted = zero;
    counted.trade_count = Some(1);
    assert_ne!(zero, counted);
}
