use proof_terminal::double::Double;
use proof_terminal::json::{parse_json, read_value};
use proof_terminal::timeframe::Timeframe;
use proof_terminal::ws::{
    event_from_json, funding_to_percent, parse_candle, parse_event, Frame, MarketTick, PhoenixWs,
    WsEvent,
};

fn d(x: f64) -> Double {
    Double { bits: x.to_bits() }
}

fn f(x: Double) -> f64 {
    f64::from_bits(x.bits)
}

#[test]
fn parses_ws_candle_seconds() {
    let event = parse_event(
        r#"{"channel":"candle","symbol":"SOL","timeframe":"1m","candle":{"time":1747556460,"open":170.42,"high":170.5,"low":170.38,"close":170.45,"volume":92.1}}"#,
    );
    match event {
        Some(WsEvent::Candle { timeframe, candle }) => {
            assert_eq!(timeframe, Timeframe::OneMinute);
            assert_eq!(candle.time_ms, 1_747_556_460_000);
            assert_eq!(f(candle.close), 170.45);
        }
        other => panic!("{other:?}"),
    }
}

#[test]
fn parses_flat_orderbook_and_market_funding() {
    let book = parse_event(
        r#"{"channel":"orderbook","symbol":"SOL","bids":[[86.84,92.05]],"asks":[[86.86,89.6]],"mid":86.85}"#,
    );
    match book {
        Some(WsEvent::Orderbook(book)) => {
            assert_eq!(f(book.bids[0].price), 86.84);
            assert_eq!(f(book.asks[0].size), 89.6);
            assert_eq!(book.mid.map(f), Some(86.85));
        }
        other => panic!("{other:?}"),
    }

    let market = parse_event(
        r#"{"channel":"market","symbol":"SOL","markPx":86.83,"prevDayPx":77.48,"openInterest":29696.65,"dayNtlVlm":8796596.52,"funding":0.001936}"#,
    );
    match market {
        Some(WsEvent::Market(tick)) => {
            assert_eq!(tick.mark.map(f), Some(86.83));
            assert_eq!(tick.prev_day.map(f), Some(77.48));
            assert!((f(tick.funding_pct.unwrap()) - 0.1936).abs() < 1e-6);
            assert!((f(tick.change_24h_pct.unwrap()) - 12.0676).abs() < 1e-3);
        }
        other => panic!("{other:?}"),
    }
}

#[test]
fn book_in_a_member_takes_the_middle_of_its_sides() {
    let book = parse_event(
        r#"{"type":"orderbook","orderbook":{"bids":[["10","1"],[9,0],[8]],"asks":[[12,2],["x",1]]}}"#,
    );
    match book {
        Some(WsEvent::Orderbook(book)) => {
            assert_eq!(book.symbol, "");
            assert_eq!(book.bids.len(), 1);
            assert_eq!(book.asks.len(), 1);
            assert_eq!(book.mid.map(f), Some(11.0));
        }
        other => panic!("{other:?}"),
    }
    assert!(parse_event(r#"{"channel":"orderbook","bids":[],"asks":[]}"#).is_none());
}

#[test]
fn trades_tell_their_side_by_size_and_word() {
    let event = parse_event(
        r#"{"channel":"trades","trades":[
            {"price":"10.5","size":-2,"side":"bid","timestamp":"2024-01-01T10:11:12Z"},
            {"px":11,"sz":"3","quoteQty":33,"time":1700000000},
            {"px":12,"side":"buy","timestamp":77},
            {"px":13,"side":"ask"},
            {"size":1}
        ]}"#,
    );
    match event {
        Some(WsEvent::Trades(trades)) => {
            assert_eq!(trades.len(), 4);
            assert_eq!(f(trades[0].price), 10.5);
            assert_eq!(f(trades[0].size), 2.0);
            assert!(!trades[0].is_buy);
            assert_eq!(trades[0].timestamp, "2024-01-01T10:11:12Z");
            assert!(trades[1].is_buy);
            assert_eq!(trades[1].notional.map(f), Some(33.0));
            assert_eq!(trades[1].timestamp, "1700000000");
            assert!(trades[2].is_buy);
            assert_eq!(trades[2].timestamp, "77");
            assert!(!trades[3].is_buy);
            assert_eq!(trades[3].timestamp, "");
        }
        other => panic!("{other:?}"),
    }
}

#[test]
fn mids_leave_out_what_is_no_number() {
    match parse_event(r#"{"channel":"allMids","mids":{"SOL":"86.5","BTC":60000,"X":null}}"#) {
        Some(WsEvent::Mids(mids)) => {
            let mut told: Vec<(String, f64)> =
                mids.into_iter().map(|(name, price)| (name, f(price))).collect();
            told.sort_by(|a, b| a.0.cmp(&b.0));
            assert_eq!(
                told,
                vec![("BTC".to_owned(), 60000.0), ("SOL".to_owned(), 86.5)]
            );
        }
        other => panic!("{other:?}"),
    }
    match parse_event(r#"{"channel":"allMids"}"#) {
        Some(WsEvent::Mids(mids)) => assert!(mids.is_empty()),
        other => panic!("{other:?}"),
    }
}

#[test]
fn candles_need_their_parts() {
    let whole = r#"{"time":"20000000000","open":1,"high":2,"low":0.5,"close":1.5,"tradeCount":4294967299,"volumeQuote":7}"#;
    let candle = parse_candle(&parse_json(whole).unwrap()).unwrap();
    assert_eq!(candle.time_ms, 20_000_000_000);
    assert_eq!(f(candle.volume), 0.0);
    assert_eq!(candle.trade_count, Some(3));
    assert_eq!(candle.volume_quote.map(f), Some(7.0));
    let bare = r#"{"time":1,"open":1,"high":2,"low":0.5}"#;
    assert!(parse_candle(&parse_json(bare).unwrap()).is_none());
    let negative = r#"{"time":5.9,"open":1,"high":2,"low":0.5,"close":1,"tradeCount":-4}"#;
    let candle = parse_candle(&parse_json(negative).unwrap()).unwrap();
    assert_eq!(candle.time_ms, 5_000);
    assert_eq!(candle.trade_count, Some(0));
    assert!(parse_event(r#"{"channel":"candles","timeframe":"2m","candle":{}}"#).is_none());
}

#[test]
fn funding_alone_and_other_channels() {
    match parse_event(r#"{"channel":"fundingRate","fundingRate":"0.2"}"#) {
        Some(WsEvent::Market(tick)) => {
            assert_eq!(tick.funding_pct.map(f), Some(0.2));
            assert!(tick.mark.is_none());
        }
        other => panic!("{other:?}"),
    }
    assert!(parse_event(r#"{"channel":"subscriptionConfirmed"}"#).is_none());
    assert!(parse_event("not json").is_none());
    assert!(parse_event("[]").is_none());
    assert_eq!(f(funding_to_percent(d(0.05))), 5.0);
    assert_eq!(f(funding_to_percent(d(-0.051))), -0.051);
    assert!(MarketTick::default().mark.is_none());
}

#[test]
fn outside_values_read_like_their_text() {
    let text = r#"{"channel":"market","markPx":1.25,"list":[1,-2,3.5,true,null,"x"]}"#;
    let value: serde_json::Value = serde_json::from_str(text).unwrap();
    let json = read_value(value);
    match event_from_json(&json) {
        Some(WsEvent::Market(tick)) => assert_eq!(tick.mark.map(f), Some(1.25)),
        other => panic!("{other:?}"),
    }
    let list = json.items_at("list").unwrap();
    assert_eq!(list.len(), 6);
    assert_eq!(list[1].integer(), Some(-2));
    assert_eq!(list[3].as_bool(), Some(true));
    assert_eq!(list[5].as_text(), Some("x"));
    assert!(list[4].number().is_none());
}

#[test]
fn numbers_read_as_integers() {
    let json = parse_json(r#"[18446744073709551615, 1e300, "-12", "+7", "7.5", 9223372036854775807]"#)
        .unwrap();
    let list = json.as_list().unwrap();
    assert_eq!(list[0].integer(), Some(-1));
    assert_eq!(list[1].integer(), Some(i64::MAX));
    assert_eq!(list[2].integer(), Some(-12));
    assert_eq!(list[3].integer(), Some(7));
    assert_eq!(list[4].integer(), None);
    assert_eq!(list[5].integer(), Some(i64::MAX));
    assert_eq!(list[4].number().map(f), Some(7.5));
}

#[test]
fn subscriptions_name_the_market_and_the_width() {
    let ws = PhoenixWs::new("SOL", Timeframe::FiveMinutes);
    let messages = ws.subscriptions(true);
    assert_eq!(messages.len(), 6);
    let expected = [
        ("allMids", None, None),
        ("orderbook", Some("SOL"), None),
        ("market", Some("SOL"), None),
        ("trades", Some("SOL"), None),
        ("fundingRate", Some("SOL"), None),
        ("candles", Some("SOL"), Some("5m")),
    ];
    for (message, (channel, symbol, timeframe)) in messages.iter().zip(expected) {
        let value: serde_json::Value = serde_json::from_str(message).unwrap();
        assert_eq!(value["type"], "subscribe");
        let inner = &value["subscription"];
        assert_eq!(inner["channel"], channel);
        assert_eq!(inner.get("symbol").and_then(|s| s.as_str()), symbol);
        assert_eq!(inner.get("timeframe").and_then(|s| s.as_str()), timeframe);
    }
    assert_eq!(
        messages[0],
        r#"{"subscription":{"channel":"allMids"},"type":"subscribe"}"#
    );
    assert_eq!(
        ws.subscriptions(false)[5],
        r#"{"subscription":{"channel":"candles","symbol":"SOL","timeframe":"5m"},"type":"unsubscribe"}"#
    );
}

#[test]
fn another_selection_ends_the_old_one_first() {
    let mut ws = PhoenixWs::new("SOL", Timeframe::OneMinute);
    let (ended, started) = ws.set_selection("SOL", Timeframe::OneMinute);
    assert!(ended.is_empty() && started.is_empty());
    let (ended, started) = ws.set_selection("A\"B", Timeframe::OneMinute);
    assert_eq!(ended.len(), 6);
    assert!(ended[1].contains("unsubscribe") && ended[1].contains("SOL"));
    assert!(started[1].contains(r#"A\"B"#));
    assert_eq!(ws.symbol, "A\"B");
}

#[test]
fn frames_become_events_or_errors() {
    let text = r#"{"channel":"market","markPx":2}"#;
    match PhoenixWs::poll(Frame::Text(text.to_owned())) {
        Ok(Some(WsEvent::Market(tick))) => assert_eq!(tick.mark.map(f), Some(2.0)),
        other => panic!("{other:?}"),
    }
    match PhoenixWs::poll(Frame::Binary(text.as_bytes().to_vec())) {
        Ok(Some(WsEvent::Market(tick))) => assert_eq!(tick.mark.map(f), Some(2.0)),
        other => panic!("{other:?}"),
    }
    let broken = b"{\"channel\":\"orderbook\",\"symbol\":\"\xff\",\"bids\":[[1,1]]}".to_vec();
    match PhoenixWs::poll(Frame::Binary(broken)) {
        Ok(Some(WsEvent::Orderbook(book))) => assert_eq!(book.symbol, "\u{fffd}"),
        other => panic!("{other:?}"),
    }
    assert!(matches!(PhoenixWs::poll(Frame::Ping), Ok(None)));
    assert!(matches!(PhoenixWs::poll(Frame::Other), Ok(None)));
    assert!(matches!(PhoenixWs::poll(Frame::TimedOut), Ok(None)));
    assert_eq!(PhoenixWs::poll(Frame::Close).unwrap_err(), "phoenix ws closed");
    assert_eq!(PhoenixWs::poll(Frame::Failed("broken pipe".to_owned())).unwrap_err(), "broken pipe");
}
