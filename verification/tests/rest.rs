use proof_terminal::double::Double;
use proof_terminal::json::{parse_json, Json};
use proof_terminal::market::{Candle, LiveQuote, MarketListing, OrderBook};
use proof_terminal::rest::{
    body_error, candles_from_api, check_status, json_error, levels_from_pairs, listings_from_api,
    live_symbol, load_desk, load_live, lots_to_base, retry_after, retry_after_header,
    transport_error, ApiCandle, ApiLeverageTier, ApiMarket, ApiMarketMetadata, ApiOrderbook,
    ApiStatsSnapshot, PhoenixRest, RateLimit, RestError,
};
use proof_terminal::timeframe::Timeframe;

fn d(x: f64) -> Double {
    Double { bits: x.to_bits() }
}

fn f(x: Double) -> f64 {
    f64::from_bits(x.bits)
}

fn pairs(entries: Option<&Vec<Json>>) -> Vec<[Double; 2]> {
    entries
        .unwrap()
        .iter()
        .map(|entry| {
            let pair = entry.as_list().unwrap();
            [pair[0].number().unwrap(), pair[1].number().unwrap()]
        })
        .collect()
}

fn market(symbol: &str) -> ApiMarket {
    ApiMarket {
        symbol: symbol.to_owned(),
        market_status: None,
        isolated_only: None,
        taker_fee: None,
        maker_fee: None,
        base_lots_decimals: None,
        leverage_tiers: Vec::new(),
        metadata: None,
        stats_snapshot: None,
        commodity_metadata: None,
    }
}

fn bar(time: Option<i64>, close: Option<f64>) -> ApiCandle {
    ApiCandle {
        time,
        open: Some(d(1.0)),
        high: Some(d(2.0)),
        low: Some(d(0.5)),
        close: close.map(d),
        volume: None,
        volume_quote: Some(d(4.0)),
        trade_count: Some(5),
    }
}

#[test]
fn parses_orderbook_and_mark_shapes() {
    let json = parse_json(
        r#"{"slot":1,"symbol":"SOL","bids":[[87.67,86.33],[87.66,10.0]],"asks":[[87.68,12.0]]}"#,
    )
    .unwrap();
    let book = ApiOrderbook {
        symbol: json.text_at("symbol").map(str::to_owned),
        bids: pairs(json.items_at("bids")),
        asks: pairs(json.items_at("asks")),
    };
    let book = OrderBook::from_api(book);
    assert_eq!(f(book.bids[0].price), 87.67);
    assert_eq!(f(book.asks[0].size), 12.0);
    assert!((f(book.mid.unwrap()) - 87.675).abs() < 1e-9);
}

#[test]
fn levels_drop_what_is_empty_or_not_finite() {
    let levels = levels_from_pairs(vec![
        [d(1.0), d(0.0)],
        [d(f64::NAN), d(1.0)],
        [d(2.0), d(3.0)],
        [d(2.0), d(f64::INFINITY)],
        [d(2.0), d(-3.0)],
    ]);
    assert_eq!(levels.len(), 1);
    assert_eq!(f(levels[0].size), 3.0);
}

#[test]
fn one_sided_books_take_their_best() {
    let book = OrderBook::from_api(ApiOrderbook {
        symbol: None,
        bids: vec![[d(5.0), d(1.0)]],
        asks: Vec::new(),
    });
    assert_eq!(book.symbol, "");
    assert_eq!(book.mid.map(f), Some(5.0));
    let book = OrderBook::from_api(ApiOrderbook {
        symbol: None,
        bids: Vec::new(),
        asks: Vec::new(),
    });
    assert!(book.mid.is_none());
}

#[test]
fn listings_fill_in_what_is_missing() {
    let bare = MarketListing::from_api(market("SOL"));
    assert_eq!(bare.name, "SOL");
    assert_eq!(bare.status, "unknown");
    assert_eq!(f(bare.max_leverage), 0.0);
    assert!(!bare.isolated_only && !bare.is_commodity && bare.mark.is_none());

    let mut full = market("GOLD");
    full.market_status = Some("active".to_owned());
    full.isolated_only = Some(true);
    full.taker_fee = Some(d(0.001));
    full.base_lots_decimals = Some(2);
    full.leverage_tiers = vec![
        ApiLeverageTier { max_leverage: Some(d(20.0)) },
        ApiLeverageTier { max_leverage: Some(d(5.0)) },
    ];
    full.metadata = Some(ApiMarketMetadata { name: Some("Gold".to_owned()) });
    full.stats_snapshot = Some(ApiStatsSnapshot {
        open_interest_base_lots: Some("12345".to_owned()),
    });
    full.commodity_metadata = parse_json(r#"{"isCommodity":true}"#);
    let mut unnamed = market("X");
    unnamed.metadata = Some(ApiMarketMetadata { name: Some(String::new()) });
    unnamed.commodity_metadata = parse_json(r#"{"isCommodity":"yes"}"#);
    let listings = listings_from_api(vec![full, unnamed]);
    assert_eq!(listings.len(), 2);
    assert_eq!(listings[0].name, "Gold");
    assert_eq!(listings[0].status, "active");
    assert!(listings[0].isolated_only && listings[0].is_commodity);
    assert_eq!(f(listings[0].max_leverage), 20.0);
    assert_eq!(f(listings[0].taker_fee), 0.001);
    assert_eq!(f(listings[0].open_interest), 123.45);
    assert_eq!(listings[1].name, "X");
    assert!(!listings[1].is_commodity);
}

#[test]
fn lots_become_base_units() {
    assert_eq!(lots_to_base(Some("1500"), 3).map(f), Some(1.5));
    assert_eq!(lots_to_base(Some("1e2"), 0).map(f), Some(100.0));
    assert_eq!(lots_to_base(Some("7"), u32::MAX).map(f), Some(7.0 / 10_f64.powi(-1)));
    assert!(lots_to_base(Some("inf"), 0).is_none());
    assert!(lots_to_base(Some("lots"), 0).is_none());
    assert!(lots_to_base(None, 0).is_none());
}

#[test]
fn bars_need_their_parts() {
    let candles = candles_from_api(vec![
        bar(Some(1), Some(1.5)),
        bar(None, Some(1.5)),
        bar(Some(2), None),
        bar(Some(3), Some(1.25)),
    ]);
    let times: Vec<i64> = candles.iter().map(|candle: &Candle| candle.time_ms).collect();
    assert_eq!(times, vec![1, 3]);
    assert_eq!(f(candles[0].volume), 0.0);
    assert_eq!(candles[0].volume_quote.map(f), Some(4.0));
    assert_eq!(candles[0].trade_count, Some(5));
}

#[test]
fn addresses_are_put_together() {
    let rest = PhoenixRest::with_base("http://host//");
    assert_eq!(rest.base, "http://host");
    assert_eq!(rest.markets_url(), "http://host/v1/view/exchange/markets");
    assert_eq!(rest.market_url("SOL"), "http://host/v1/view/exchange/market/SOL");
    assert_eq!(rest.orderbook_url("SOL"), "http://host/v1/view/orderbook/SOL");
    assert_eq!(
        rest.candles_url("SOL", Timeframe::FifteenMinutes, 720),
        "http://host/v1/candles/SOL?timeframe=15m&limit=720"
    );
    assert_eq!(
        rest.candles_after_url("SOL", Timeframe::OneDay, -5, 10),
        "http://host/v1/candles/SOL?timeframe=1d&startTime=-5&limit=10"
    );
    assert_eq!(PhoenixRest::default().base, "https://perp-api.phoenix.trade");
}

#[test]
fn refusals_say_why() {
    assert!(check_status("u", 200, None).is_ok());
    assert!(check_status("u", 299, None).is_ok());
    let error = check_status("u", 404, None).unwrap_err();
    assert_eq!(error.message(), "phoenix GET u returned 404");
    assert_eq!(retry_after(&error), None);
    let error = check_status("u", 302, Some("5")).unwrap_err();
    assert_eq!(error.message(), "phoenix GET u returned 302");
    let error = check_status("u", 429, Some("5")).unwrap_err();
    assert_eq!(retry_after(&error), Some(5));
    assert_eq!(error.message(), "phoenix rate limited, retry after 5s");
    assert_eq!(
        RateLimit { retry_after: 0 }.message(),
        "phoenix rate limited, retry after 1s"
    );
    assert_eq!(transport_error("u", "no route").message(), "phoenix GET u: no route");
    assert_eq!(body_error("u").message(), "phoenix GET u body");
    let long = format!("a\nb{}", "c".repeat(200));
    let expected = format!("phoenix GET u JSON: a b{}", "c".repeat(117));
    assert_eq!(json_error("u", &long).message(), expected);
}

#[test]
fn pauses_keep_to_their_bounds() {
    assert_eq!(retry_after_header(None), 8);
    assert_eq!(retry_after_header(Some("soon")), 8);
    assert_eq!(retry_after_header(Some("-3")), 8);
    assert_eq!(retry_after_header(Some("+3")), 3);
    assert_eq!(retry_after_header(Some("0")), 1);
    assert_eq!(retry_after_header(Some("61")), 60);
    assert_eq!(retry_after_header(Some("18446744073709551615")), 60);
    assert_eq!(retry_after_header(Some("18446744073709551616")), 8);
}

#[test]
fn symbols_are_trimmed_and_not_empty() {
    assert_eq!(live_symbol("  SOL\n").unwrap(), "SOL");
    let error = live_symbol(" \t").unwrap_err();
    assert_eq!(error.message(), "market symbol is empty");
}

#[test]
fn a_quote_takes_its_mark_from_the_book() {
    let book = OrderBook::from_api(ApiOrderbook {
        symbol: Some("SOL".to_owned()),
        bids: vec![[d(10.0), d(1.0)]],
        asks: vec![[d(12.0), d(1.0)]],
    });
    let quote = load_live(MarketListing::placeholder("SOL"), Ok(book), 3);
    assert_eq!(quote.mark.map(f), Some(11.0));
    assert_eq!(quote.book.bids.len(), 1);
    assert_eq!(quote.fetched_at, 3);
    let desk = load_desk(quote, Timeframe::OneHour, Err(body_error("u")));
    assert_eq!(desk.mark.map(f), Some(11.0));
    assert_eq!(desk.best_ask.map(f), Some(12.0));
    assert!(desk.candles.is_empty());

    let bare: LiveQuote =
        load_live(MarketListing::placeholder("SOL"), Err(RestError::Failed("x".to_owned())), 4);
    assert!(bare.mark.is_none());
    assert_eq!(bare.listing.name, "SOL-PERP");
    let candles = candles_from_api(vec![bar(Some(1), Some(1.5))]);
    let desk = load_desk(bare, Timeframe::OneHour, Ok(candles));
    assert_eq!(desk.change_24h_pct.map(f), Some(50.0));
    assert!(desk.open_interest.is_none() && desk.max_leverage.is_none());
}
