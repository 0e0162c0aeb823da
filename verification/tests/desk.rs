use std::sync::Arc;

use proof_terminal::candles::cached_candle;
use proof_terminal::desk::chart::{plot_candles, zoom_bars};
use proof_terminal::desk::panels::book_rows;
use proof_terminal::desk::picture::{paint_candles, Area};
use proof_terminal::desk::{ProofDesk, Scroll};
use proof_terminal::double::Double;
use proof_terminal::feed::{FeedCommand, FeedEvent};
use proof_terminal::market::{
    desk_from_live, BookLevel, Candle, DeskSnapshot, LiveQuote, MarketListing, Trade,
};
use proof_terminal::timeframe::Timeframe;

fn d(x: f64) -> Double {
    Double { bits: x.to_bits() }
}

fn f(x: Double) -> f64 {
    f64::from_bits(x.bits)
}

fn bar(time_ms: i64, open: f64, high: f64, low: f64, close: f64) -> Candle {
    cached_candle(time_ms, d(open), d(high), d(low), d(close), d(1.0))
}

fn bars(count: i64) -> Vec<Candle> {
    (0..count).map(|i| bar(i, 1.0, 2.0, 0.5, 1.5)).collect()
}

fn pixels(x: f64, y: f64) -> Scroll {
    Scroll::Pixels { x: d(x), y: d(y) }
}

fn quote(symbol: &str) -> LiveQuote {
    LiveQuote::from_listing(MarketListing::placeholder(symbol), 0)
}

fn snapshot(symbol: &str, timeframe: Timeframe, count: i64) -> FeedEvent {
    FeedEvent::Desk(Box::new(desk_from_live(quote(symbol), timeframe, bars(count))))
}

fn desk_with(count: i64) -> ProofDesk {
    let mut desk = ProofDesk::new();
    assert!(desk.apply_event(snapshot("SOL", Timeframe::OneMinute, count)).redraw);
    desk
}

#[test]
fn events_of_other_markets_are_ignored() {
    let mut desk = ProofDesk::new();
    assert!(!desk.apply_event(snapshot("BTC", Timeframe::OneMinute, 3)).redraw);
    assert!(!desk.apply_event(snapshot("SOL", Timeframe::OneDay, 3)).redraw);
    assert!(desk.desk.is_none());
    assert!(desk.apply_event(snapshot("SOL", Timeframe::OneMinute, 3)).redraw);
    assert_eq!(desk.candles.len(), 3);
    let markets = vec![MarketListing::placeholder("SOL")];
    assert!(desk.apply_event(FeedEvent::Markets(markets)).redraw);
    assert_eq!(desk.market_rows, 1);
}

#[test]
fn the_connection_is_told_in_a_word() {
    let mut desk = ProofDesk::new();
    assert_eq!(desk.connection_label(), ("connecting", false));
    desk.apply_event(FeedEvent::Error("down".to_owned()));
    assert_eq!(desk.connection_label(), ("offline", true));
    desk.apply_event(snapshot("SOL", Timeframe::OneMinute, 3));
    assert_eq!(desk.connection_label(), ("live", false));
    desk.apply_event(FeedEvent::Error("down".to_owned()));
    assert_eq!(desk.connection_label(), ("stale", true));
    assert_eq!(desk.bottom_bar().detail, "down");
    assert!(desk.bottom_bar().warns);
    desk.apply_event(snapshot("SOL", Timeframe::OneMinute, 0));
    assert_eq!(desk.connection_label(), ("connecting", false));
    assert_eq!(
        desk.bottom_bar().detail,
        "Phoenix unknown \u{b7} paper mode \u{b7} no signing"
    );
}

#[test]
fn selections_tell_the_feed_once() {
    let mut desk = desk_with(200);
    desk.pan_chart(5);
    assert_eq!(desk.chart_offset, 5);
    let change = desk.select_symbol("BTC".to_owned());
    assert!(change.redraw);
    match change.command {
        Some(FeedCommand::Select { symbol, timeframe }) => {
            assert_eq!(symbol, "BTC");
            assert_eq!(timeframe, Timeframe::OneMinute);
        }
        other => panic!("{other:?}"),
    }
    assert_eq!(desk.chart_offset, 0);
    assert!(desk.select_symbol("BTC".to_owned()).command.is_none());
    match desk.set_timeframe(Timeframe::OneDay).command {
        Some(FeedCommand::Select { symbol, timeframe }) => {
            assert_eq!(symbol, "BTC");
            assert_eq!(timeframe, Timeframe::OneDay);
        }
        other => panic!("{other:?}"),
    }
    assert!(!desk.set_timeframe(Timeframe::OneDay).redraw);
    assert_eq!(desk.title(), "Proof Terminal \u{2014} BTC-PERP");
    assert_eq!(desk.top_bar().symbol, "SOL-PERP");
}

#[test]
fn keys_do_what_they_say() {
    let mut desk = desk_with(200);
    assert!(!desk.handle_key(true, "2").redraw);
    assert!(desk.handle_key(false, "2").command.is_some());
    assert_eq!(desk.selected_symbol, "BTC");
    desk.handle_key(false, "3");
    assert_eq!(desk.selected_symbol, "ETH");
    desk.handle_key(false, "1");
    assert_eq!(desk.selected_symbol, "SOL");
    desk.handle_key(false, "=");
    assert_eq!(desk.chart_visible, 68);
    desk.handle_key(false, "-");
    assert_eq!(desk.chart_visible, 80);
    desk.handle_key(false, "left");
    desk.handle_key(false, "left");
    assert_eq!(desk.chart_offset, 16);
    desk.handle_key(false, "right");
    assert_eq!(desk.chart_offset, 8);
    assert!(desk.handle_key(false, "home").redraw);
    assert_eq!(desk.chart_offset, 0);
    assert!(!desk.handle_key(false, "0").redraw);
    assert!(!desk.handle_key(false, "q").redraw);
}

#[test]
fn zooming_counts_in_single_precision() {
    for visible in (20..2_000).chain([16_777_215, 16_777_217, 33_554_435, 1 << 40]) {
        for zoom_in in [true, false] {
            let factor: f32 = if zoom_in { 0.85 } else { 1.18 };
            let expected = ((visible as f32 * factor).round() as usize).clamp(20, 1 << 50);
            assert_eq!(zoom_bars(1 << 50, visible, zoom_in), expected);
        }
    }
    assert_eq!(zoom_bars(0, 80, false), 20);
    assert_eq!(zoom_bars(70, 80, false), 70);
    assert_eq!(zoom_bars(700, 20, true), 20);
}

#[test]
fn panning_stops_at_both_ends() {
    let mut desk = desk_with(100);
    assert!(!desk.pan_chart(-3).redraw);
    assert!(desk.pan_chart(1_000).redraw);
    assert_eq!(desk.chart_offset, 20);
    assert!(!desk.pan_chart(i64::MAX).redraw);
    desk.pan_chart(-7);
    assert_eq!(desk.chart_offset, 13);
    assert_eq!(desk.chart_window().len(), 80);
    assert_eq!(desk.chart_window()[0].time_ms, 7);
    desk.zoom_chart(false);
    assert_eq!(desk.chart_visible, 94);
    assert_eq!(desk.chart_offset, 6);
}

#[test]
fn drags_move_by_whole_bars() {
    let mut desk = desk_with(200);
    assert!(!desk.drag_chart(d(80.0)).consumed);
    desk.pan_chart(10);
    assert!(desk.begin_chart_drag(d(300.0)).consumed);
    let change = desk.drag_chart(d(280.0));
    assert!(change.redraw && change.consumed);
    assert_eq!(desk.chart_offset, 13);
    assert!(!desk.drag_chart(d(279.0)).consumed);
    desk.drag_chart(d(1e30));
    assert_eq!(desk.chart_offset, 0);
    desk.drag_chart(d(f64::NAN));
    assert_eq!(desk.chart_offset, 10);
    assert!(desk.end_chart_drag().redraw);
    assert!(!desk.end_chart_drag().redraw);
}

#[test]
fn lines_count_as_pixels() {
    let mut desk = desk_with(200);
    let lines = Scroll::Lines { x: d(2.0), y: d(0.5) };
    assert!(desk.scroll_chart(lines, false).redraw);
    assert_eq!(desk.chart_offset, 6);
}

#[test]
fn pictures_are_those_of_native_single_precision() {
    let candles: Vec<Candle> = (0..37)
        .map(|i| {
            let open = 100.0 + (i as f64 * 0.7).sin() * 9.0;
            let close = 100.0 + (i as f64 * 0.9).cos() * 9.0;
            bar(i, open, open.max(close) + 0.3, open.min(close) - 0.2, close)
        })
        .collect();
    for (x0, y0, width, height) in
        [(12.25_f32, 48.5_f32, 811.3_f32, 333.7_f32), (0.1, 0.2, 33.3, 1.1), (-5.0, 7.7, 4000.1, 2160.0)]
    {
        let bounds = Area {
            x: d(x0 as f64),
            y: d(y0 as f64),
            width: d(width as f64),
            height: d(height as f64),
        };
        let picture = paint_candles(bounds, &candles);
        assert_eq!(picture.bars.len(), candles.len());
        for (line, fraction) in picture.grid.iter().zip([0.25_f32, 0.5, 0.75]) {
            assert_eq!(f(line.y), (y0 + height * fraction) as f64);
            assert_eq!(f(line.width), width as f64);
        }
        let mut min = f64::MAX;
        let mut max = f64::MIN;
        for candle in &candles {
            min = min.min(f(candle.low));
            max = max.max(f(candle.high));
        }
        let pad = (max - min) * 0.08;
        min -= pad;
        max += pad;
        let range = max - min;
        let slot = width / candles.len() as f32;
        let body_w = (slot * 0.62).clamp(1.0, 7.0);
        for (index, (candle, shape)) in candles.iter().zip(&picture.bars).enumerate() {
            let x = x0 + index as f32 * slot + slot / 2.0;
            let y_of = |price: Double| {
                let t = ((max - f(price)) / range) as f32;
                y0 + t * height
            };
            let (high, low) = (y_of(candle.high), y_of(candle.low));
            let (open, close) = (y_of(candle.open), y_of(candle.close));
            assert_eq!(f(shape.wick.x), x as f64);
            assert_eq!(f(shape.wick.y), high.min(low) as f64);
            assert_eq!(f(shape.wick.width), 1.0);
            assert_eq!(f(shape.wick.height), (high - low).abs().max(1.0) as f64);
            assert_eq!(f(shape.body.x), (x - body_w / 2.0) as f64);
            assert_eq!(f(shape.body.y), open.min(close) as f64);
            assert_eq!(f(shape.body.width), body_w as f64);
            assert_eq!(f(shape.body.height), (open - close).abs().max(1.0) as f64);
            assert_eq!(shape.rises, f(candle.close) >= f(candle.open));
        }
    }
    let narrow = Area { x: d(0.0), y: d(0.0), width: d(1.0), height: d(50.0) };
    assert!(paint_candles(narrow, &candles).grid.is_empty());
    let wide = Area { x: d(0.0), y: d(0.0), width: d(100.0), height: d(50.0) };
    assert!(paint_candles(wide, &bars(1)).bars.is_empty());
}

#[test]
fn scrolls_and_pinches_zoom_or_pan() {
    let mut desk = desk_with(200);
    assert!(!desk.scroll_chart(pixels(0.05, 0.01), false).consumed);
    let change = desk.scroll_chart(pixels(40.0, 1.0), false);
    assert!(change.redraw && change.consumed);
    assert_eq!(desk.chart_offset, 5);
    let change = desk.scroll_chart(pixels(2.0, 1.0), false);
    assert!(!change.redraw && change.consumed);
    desk.scroll_chart(pixels(40.0, 1.0), true);
    assert_eq!(desk.chart_visible, 68);
    desk.scroll_chart(pixels(1.0, -2.0), false);
    assert_eq!(desk.chart_visible, 80);
    assert!(!desk.pinch_chart(d(0.005)).consumed);
    assert!(desk.pinch_chart(d(-0.5)).consumed);
    assert_eq!(desk.chart_visible, 94);
    assert!(!desk.click_chart(1).consumed);
    assert!(desk.click_chart(2).redraw);
    assert_eq!(desk.chart_visible, 80);
}

#[test]
fn thresholds_are_those_of_single_precision() {
    let mut desk = desk_with(200);
    let tenth = 0.1_f32;
    assert!(desk.scroll_chart(pixels(0.0, tenth as f64), false).consumed);
    let below = f32::from_bits(tenth.to_bits() - 1);
    assert!(!desk.scroll_chart(pixels(0.0, below as f64), false).consumed);
    let hundredth = 0.01_f32;
    assert!(desk.pinch_chart(d(hundredth as f64)).consumed);
    let below = f32::from_bits(hundredth.to_bits() - 1);
    assert!(!desk.pinch_chart(d(below as f64)).consumed);
}

#[test]
fn tickets_and_headers_remember() {
    let mut desk = ProofDesk::new();
    let ticket = desk.ticket();
    assert!(ticket.limit && ticket.long);
    assert_eq!(ticket.price, "\u{2014}");
    desk.set_limit(false);
    desk.set_side(false);
    assert!(!desk.ticket().limit && !desk.ticket().long);
    desk.arm_header(true);
    assert!(desk.move_header());
    assert!(!desk.move_header());
}

fn full_snapshot() -> DeskSnapshot {
    let mut live = quote("SOL");
    live.mark = Some(d(1234.5));
    live.change_24h_pct = Some(d(-1.234));
    live.open_interest = Some(d(1_500_000.0));
    live.funding_pct = Some(d(0.01));
    live.book.asks = (0..20)
        .map(|i| BookLevel { price: d(100.0 + i as f64), size: d(1.0 + i as f64) })
        .collect();
    live.book.bids = vec![BookLevel { price: d(99.5), size: d(0.25) }];
    live.trades = vec![Trade {
        price: d(99.0),
        size: d(2.0),
        notional: None,
        is_buy: false,
        timestamp: "2024-01-01T10:11:12Z".to_owned(),
    }];
    desk_from_live(live, Timeframe::OneMinute, bars(2))
}

#[test]
fn panels_show_the_market() {
    let mut desk = ProofDesk::new();
    let bar = desk.top_bar();
    assert_eq!(bar.name, "Phoenix Perp");
    assert_eq!(bar.mark, "\u{2014}");
    assert!(bar.rises);
    assert!(desk.book_panel().asks.is_empty());
    assert!(desk.trades_panel().is_empty());

    desk.apply_event(FeedEvent::Desk(Box::new(full_snapshot())));
    assert_eq!((desk.ask_rows, desk.bid_rows, desk.trade_rows), (12, 1, 1));
    let bar = desk.top_bar();
    assert_eq!(bar.symbol, "SOL-PERP");
    assert_eq!(bar.name, "SOL-PERP");
    assert_eq!(bar.mark, "1234.50");
    assert_eq!(bar.change, "-1.23%");
    assert!(!bar.rises);
    assert_eq!(bar.open_interest, "1.50M");
    assert_eq!(bar.funding, "0.0100%");
    assert_eq!(bar.volume, "\u{2014}");
    assert_eq!((bar.status, bar.warns), ("live", false));

    let book = desk.book_panel();
    assert_eq!(book.asks.len(), 12);
    assert_eq!(book.asks[11].price, "111");
    assert_eq!(f(book.asks[11].fraction), 1.0);
    assert_eq!(f(book.asks[2].fraction), 0.25);
    assert_eq!(f(book.bids[0].fraction), 0.25);
    assert_eq!(book.mid, "1234.50");
    let trades = desk.trades_panel();
    assert_eq!(trades[0].price, "99");
    assert_eq!(trades[0].time, "10:11:12");
    assert!(!trades[0].is_buy);
    assert_eq!(desk.ticket().price, "1234.50");
}

#[test]
fn rows_fill_at_most_once() {
    let rows = book_rows(&vec![
        BookLevel { price: d(1.0), size: d(f64::INFINITY) },
        BookLevel { price: d(1.0), size: d(4.0) },
        BookLevel { price: d(1.0), size: d(-4.0) },
    ]);
    assert!(f(rows[0].fraction).is_nan());
    assert_eq!(f(rows[1].fraction), 0.0);
    assert_eq!(f(rows[2].fraction), 0.0);
}

#[test]
fn market_rows_and_chips() {
    let mut desk = ProofDesk::new();
    let mut sol = MarketListing::placeholder("SOL");
    sol.max_leverage = d(20.9);
    desk.apply_event(FeedEvent::Markets(vec![sol, MarketListing::placeholder("BTC")]));
    let row = desk.market_row(0).unwrap();
    assert_eq!(row.id, "market-SOL");
    assert_eq!(row.leverage, "20x");
    assert!(row.active);
    let row = desk.market_row(1).unwrap();
    assert_eq!(row.leverage, "\u{2014}");
    assert!(!row.active);
    assert!(desk.market_row(2).is_none());
    let chips = desk.timeframe_chips();
    assert_eq!(chips.len(), 9);
    assert_eq!(chips[4].id, "tf-15m");
    assert_eq!(chips[4].label, "15m");
    assert!(chips[2].active && !chips[4].active);
}

#[test]
fn bars_lie_within_the_chart() {
    assert!(plot_candles(&bars(1)).is_empty());
    let candles = vec![bar(0, 10.0, 12.0, 8.0, 11.0), bar(1, 11.0, 11.5, 9.0, 9.5)];
    let plotted = plot_candles(&candles);
    let (mut min, mut max) = (8.0_f64, 12.0_f64);
    let pad = (max - min) * 0.08;
    min -= pad;
    max += pad;
    let range = max - min;
    for (candle, bar) in candles.iter().zip(&plotted) {
        assert_eq!(f(bar.high), (max - f(candle.high)) / range);
        assert_eq!(f(bar.low), (max - f(candle.low)) / range);
        assert_eq!(f(bar.open), (max - f(candle.open)) / range);
        assert_eq!(f(bar.close), (max - f(candle.close)) / range);
    }
    assert!(plotted[0].rises && !plotted[1].rises);
    let level = vec![bar(0, 5.0, 5.0, 5.0, 5.0), bar(1, 5.0, 5.0, 5.0, 5.0)];
    let plotted = plot_candles(&level);
    assert!((f(plotted[0].high) - (1.08 / 1.16)).abs() < 1e-12);
}

#[test]
fn shared_bars_are_not_copied() {
    let desk = desk_with(3);
    let inner = desk.desk.as_ref().unwrap();
    assert!(Arc::ptr_eq(&inner.candles, &desk.candles));
}

#[test]
fn a_move_and_its_return() {
    let mut desk = desk_with(200);
    desk.pan_chart(30);
    desk.pan_chart(17);
    desk.pan_chart(-17);
    assert_eq!(desk.chart_offset, 30);
    let copy = full_snapshot().clone();
    assert_eq!(copy.book.asks.len(), 20);
    assert_eq!(copy.trades[0].timestamp, "2024-01-01T10:11:12Z");
}
