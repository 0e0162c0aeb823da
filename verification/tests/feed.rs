use proof_terminal::candles::cached_candle;
use proof_terminal::double::Double;
use proof_terminal::feed::machine::{
    Feed, Phase, Reply, Request, Step, LONGEST_BACKOFF, MARKET_REFRESH, POLLS, SECOND,
    SHORTEST_BACKOFF,
};
use proof_terminal::feed::{
    apply_tick, market_rank, prepend_trades, sort_markets, FeedCommand, FeedEvent,
};
use proof_terminal::market::{
    BookLevel, Candle, DeskSnapshot, LiveQuote, MarketListing, OrderBook, Trade,
};
use proof_terminal::rest::{RateLimit, RestError};
use proof_terminal::timeframe::Timeframe;
use proof_terminal::ws::{MarketTick, WsEvent};

fn d(x: f64) -> Double {
    Double { bits: x.to_bits() }
}

fn f(x: Double) -> f64 {
    f64::from_bits(x.bits)
}

fn bar(time_ms: i64, close: f64) -> Candle {
    cached_candle(time_ms, d(1.0), d(2.0), d(0.5), d(close), d(1.0))
}

fn trade(price: f64) -> Trade {
    Trade {
        price: d(price),
        size: d(1.0),
        notional: None,
        is_buy: true,
        timestamp: String::new(),
    }
}

fn select(symbol: &str, timeframe: Timeframe) -> Reply {
    Reply::Command(FeedCommand::Select { symbol: symbol.to_owned(), timeframe })
}

fn desk_of(event: &FeedEvent) -> &DeskSnapshot {
    match event {
        FeedEvent::Desk(snapshot) => snapshot,
        other => panic!("{other:?}"),
    }
}

fn symbols_of(event: &FeedEvent) -> Vec<String> {
    match event {
        FeedEvent::Markets(markets) => markets.iter().map(|m| m.symbol.clone()).collect(),
        other => panic!("{other:?}"),
    }
}

fn error_of(event: &FeedEvent) -> &str {
    match event {
        FeedEvent::Error(error) => error,
        other => panic!("{other:?}"),
    }
}

/// A feed that waits, with one cached bar and three placeholder markets.
fn waiting(connected: bool) -> Feed {
    let mut feed = Feed::new(0);
    feed.step(
        Reply::Connected(if connected { Ok(()) } else { Err("down".to_owned()) }),
        0,
    );
    feed.step(Reply::Cached(vec![bar(1, 1.5)]), 0);
    let step = feed.step(Reply::Markets(Err(RestError::Failed("no".to_owned()))), 0);
    assert!(matches!(step.request, Request::Wait));
    feed
}

#[test]
fn the_feed_starts_in_its_order() {
    let mut feed = Feed::new(7);
    match feed.request() {
        Request::Connect { symbol, timeframe } => {
            assert_eq!(symbol, "SOL");
            assert_eq!(timeframe, Timeframe::OneMinute);
        }
        other => panic!("{other:?}"),
    }
    let step = feed.step(Reply::Connected(Ok(())), 8);
    assert_eq!(symbols_of(&step.events[0]), vec!["SOL", "BTC", "ETH"]);
    assert!(matches!(step.request, Request::LoadCandles { .. }));
    let step = feed.step(Reply::Cached(Vec::new()), 9);
    assert!(step.events.is_empty());
    assert!(matches!(step.request, Request::FetchCandles { .. }));
    let step = feed.step(Reply::Fetched(Ok(vec![bar(3, 1.0), bar(2, 2.0)])), 10);
    let saved = step.save.unwrap();
    assert_eq!(saved.symbol, "SOL");
    assert_eq!(saved.candles[0].time_ms, 2);
    assert!(matches!(step.request, Request::FetchMarkets));
    let mut sol = MarketListing::placeholder("SOL");
    sol.open_interest = d(4.0);
    let markets = vec![
        MarketListing::placeholder("ZZZ"),
        MarketListing::placeholder("AAA"),
        sol,
    ];
    let step = feed.step(Reply::Markets(Ok(markets)), 11);
    assert_eq!(symbols_of(&step.events[0]), vec!["SOL", "AAA", "ZZZ"]);
    let desk = desk_of(&step.events[1]);
    assert_eq!(desk.symbol, "SOL");
    assert_eq!(desk.candles.len(), 2);
    assert_eq!(desk.open_interest.map(f), Some(4.0));
    assert_eq!(desk.fetched_at, 7);
    assert!(matches!(step.request, Request::Wait));
}

#[test]
fn a_pause_is_kept() {
    let mut feed = Feed::new(0);
    feed.step(Reply::Connected(Err("down".to_owned())), 0);
    feed.step(Reply::Cached(Vec::new()), 0);
    let limit = RestError::RateLimited(RateLimit { retry_after: 5 });
    let step = feed.step(Reply::Fetched(Err(limit)), 1);
    assert_eq!(feed.rest_cooldown_until, 1 + 5 * SECOND);
    assert!(matches!(step.request, Request::Wait));
    assert_eq!(desk_of(&step.events[0]).candles.len(), 0);
    feed.step(select("BTC", Timeframe::OneHour), 2);
    let step = feed.step(Reply::Cached(Vec::new()), 3);
    assert!(matches!(step.request, Request::Wait));
    feed.step(select("ETH", Timeframe::OneHour), 4);
    let step = feed.step(Reply::Cached(Vec::new()), 1 + 5 * SECOND);
    assert!(matches!(step.request, Request::FetchCandles { .. }));
    let endless = RestError::RateLimited(RateLimit { retry_after: u64::MAX });
    feed.step(Reply::Fetched(Err(endless)), 2 + 5 * SECOND);
    assert_eq!(feed.rest_cooldown_until, u64::MAX);
}

#[test]
fn a_selection_turns_the_stream_and_shows_the_market() {
    let mut feed = waiting(true);
    let step = feed.step(select("BTC", Timeframe::OneMinute), 5);
    match step.request {
        Request::LoadCandles { ref symbol, timeframe, limit } => {
            assert_eq!(symbol, "BTC");
            assert_eq!(limit, 720);
            assert_eq!(timeframe, Timeframe::OneMinute);
        }
        other => panic!("{other:?}"),
    }
    let step = feed.step(Reply::Cached(vec![bar(4, 9.0)]), 6);
    assert!(matches!(step.request, Request::Select { .. }));
    let step = feed.step(Reply::Selected(false), 7);
    let desk = desk_of(&step.events[0]);
    assert_eq!(desk.symbol, "BTC");
    assert_eq!(desk.name, "BTC-PERP");
    assert_eq!(f(desk.candles[0].close), 9.0);
    assert!(!feed.connected);
    let step = feed.step(select("SOL", Timeframe::OneMinute), 8);
    assert!(matches!(step.request, Request::Wait));
    assert_eq!(desk_of(&step.events[0]).candles[0].time_ms, 1);
    let step = feed.step(select("XXX", Timeframe::OneMinute), 9);
    assert!(matches!(step.request, Request::LoadCandles { .. }));
    feed.step(Reply::Cached(Vec::new()), 10);
    let step = feed.step(Reply::Fetched(Ok(Vec::new())), 11);
    assert!(step.save.is_none());
    assert_eq!(desk_of(&step.events[0]).status, "unknown");
}

fn poll(feed: &mut Feed, event: WsEvent, now: u64) -> Step {
    feed.step(Reply::Polled(Ok(Some(event))), now)
}

#[test]
fn the_stream_is_read_until_it_is_quiet() {
    let mut feed = waiting(true);
    let step = feed.step(Reply::Quiet, 1);
    assert!(matches!(step.request, Request::Poll));
    let book = OrderBook {
        symbol: String::new(),
        bids: vec![BookLevel { price: d(10.0), size: d(1.0) }],
        asks: Vec::new(),
        mid: Some(d(10.0)),
    };
    let step = poll(&mut feed, WsEvent::Orderbook(book), 2);
    assert!(step.events.is_empty());
    assert!(matches!(step.request, Request::Poll));
    let step = poll(
        &mut feed,
        WsEvent::Candle { timeframe: Timeframe::OneMinute, candle: bar(1, 8.0) },
        3,
    );
    assert_eq!(step.save.unwrap().candles.len(), 1);
    let step = poll(
        &mut feed,
        WsEvent::Candle { timeframe: Timeframe::OneDay, candle: bar(1, 9.0) },
        3,
    );
    assert!(step.save.is_none());
    let step = poll(
        &mut feed,
        WsEvent::Mids(vec![("BTC".to_owned(), d(5.0)), ("SOL".to_owned(), d(11.0))]),
        4,
    );
    assert!(step.events.is_empty());
    poll(&mut feed, WsEvent::Trades(vec![trade(1.0)]), 5);
    let step = feed.step(Reply::Polled(Ok(None)), 6);
    assert_eq!(symbols_of(&step.events[0]), vec!["SOL", "BTC", "ETH"]);
    let desk = desk_of(&step.events[1]);
    assert_eq!(desk.mark.map(f), Some(10.0));
    assert_eq!(desk.mid.map(f), Some(11.0));
    assert_eq!(f(desk.candles[0].close), 8.0);
    assert_eq!(desk.trades.len(), 1);
    assert_eq!(desk.fetched_at, 5);
    assert_eq!(feed.listings[1].mark.map(f), Some(5.0));
    let step = feed.step(Reply::Quiet, 7);
    assert!(matches!(step.request, Request::Poll));
    let step = feed.step(Reply::Polled(Ok(None)), 8);
    assert!(step.events.is_empty());
}

#[test]
fn a_round_takes_so_many_messages_and_no_more() {
    let mut feed = waiting(true);
    feed.step(Reply::Quiet, 1);
    for _ in 1..POLLS {
        let step = poll(&mut feed, WsEvent::Market(MarketTick::default()), 2);
        assert!(matches!(step.request, Request::Poll));
    }
    let step = poll(&mut feed, WsEvent::Market(MarketTick::default()), 2);
    assert!(matches!(step.request, Request::Wait));
    assert_eq!(step.events.len(), 1);
}

#[test]
fn a_tick_marks_its_listing() {
    let mut feed = waiting(true);
    feed.step(Reply::Quiet, 1);
    let mut tick = MarketTick::default();
    tick.mid = Some(d(3.0));
    poll(&mut feed, WsEvent::Market(tick), 2);
    assert_eq!(feed.listings[0].mark.map(f), Some(3.0));
    assert!(feed.markets_dirty);
    assert_eq!(feed.live.mid.map(f), Some(3.0));
    assert!(feed.live.mark.is_none());
}

#[test]
fn a_broken_stream_is_told_and_tried_again_later() {
    let mut feed = waiting(true);
    feed.step(Reply::Quiet, 1);
    let step = feed.step(Reply::Polled(Err("gone".to_owned())), 2);
    assert_eq!(error_of(&step.events[0]), "gone");
    assert!(!feed.connected);
    let step = feed.step(Reply::Quiet, 3);
    assert!(matches!(step.request, Request::Wait));
    let mut now = SHORTEST_BACKOFF;
    let mut wait = SHORTEST_BACKOFF;
    for _ in 0..7 {
        assert_eq!(feed.backoff, wait);
        let step = feed.step(Reply::Quiet, now);
        assert!(matches!(step.request, Request::Connect { .. }));
        let step = feed.step(Reply::Connected(Err("still gone".to_owned())), now);
        assert_eq!(error_of(&step.events[0]), "still gone");
        wait = (wait * 2).min(LONGEST_BACKOFF);
        now += wait;
    }
    assert_eq!(feed.backoff, LONGEST_BACKOFF);
    feed.step(Reply::Quiet, now);
    let step = feed.step(Reply::Connected(Ok(())), now);
    assert!(step.events.is_empty() || matches!(step.request, Request::FetchMarkets));
    assert!(feed.connected);
    assert_eq!(feed.backoff, SHORTEST_BACKOFF);
}

#[test]
fn markets_are_asked_for_from_time_to_time() {
    let mut feed = waiting(false);
    feed.last_ws_attempt = MARKET_REFRESH;
    let step = feed.step(Reply::Quiet, MARKET_REFRESH - 1);
    assert!(matches!(step.request, Request::Wait));
    let step = feed.step(Reply::Quiet, MARKET_REFRESH);
    assert!(matches!(step.request, Request::FetchMarkets));
    assert_eq!(feed.last_markets, MARKET_REFRESH);
    let twice = vec![
        MarketListing::placeholder("BTC"),
        MarketListing::placeholder("SOL"),
        MarketListing::placeholder("BTC"),
    ];
    let step = feed.step(Reply::Markets(Ok(twice)), MARKET_REFRESH + 1);
    assert_eq!(symbols_of(&step.events[0]), vec!["SOL", "BTC", "BTC"]);
    assert_eq!(desk_of(&step.events[1]).symbol, "SOL");
    assert_eq!(feed.listings.len(), 2);
}

#[test]
fn no_markets_at_all_is_an_error() {
    let mut feed = waiting(false);
    feed.last_ws_attempt = 3 * MARKET_REFRESH;
    feed.step(Reply::Quiet, MARKET_REFRESH);
    let step = feed.step(Reply::Markets(Ok(Vec::new())), MARKET_REFRESH);
    assert_eq!(step.events.len(), 1);
    feed.step(Reply::Quiet, 2 * MARKET_REFRESH);
    let limit = RestError::RateLimited(RateLimit { retry_after: 9 });
    let step = feed.step(Reply::Markets(Err(limit)), 2 * MARKET_REFRESH);
    assert_eq!(error_of(&step.events[0]), "phoenix rate limited, retry after 9s");
}

#[test]
fn a_stopped_feed_stays_so() {
    let mut feed = waiting(true);
    let step = feed.step(Reply::Command(FeedCommand::Shutdown), 1);
    assert!(matches!(step.request, Request::Stop));
    let step = feed.step(select("BTC", Timeframe::OneDay), 2);
    assert!(matches!(step.request, Request::Stop));
    assert!(matches!(feed.phase, Phase::Stopped));
    let mut feed = waiting(true);
    assert!(matches!(feed.step(Reply::Closed, 1).request, Request::Stop));
}

#[test]
fn what_was_not_asked_for_changes_nothing() {
    let mut feed = waiting(true);
    let step = feed.step(Reply::Cached(vec![bar(99, 1.0)]), 1);
    assert!(matches!(step.request, Request::Wait));
    assert!(step.events.is_empty());
    assert_eq!(feed.series.len(), 1);
}

#[test]
fn ticks_keep_what_they_do_not_say() {
    let mut quote = LiveQuote::from_listing(MarketListing::placeholder("SOL"), 0);
    quote.index = Some(d(2.0));
    quote.mark = Some(d(1.0));
    let mut tick = MarketTick::default();
    tick.mark = Some(d(3.0));
    tick.volume_24h = Some(d(4.0));
    apply_tick(&mut quote, &tick);
    assert_eq!(quote.mark.map(f), Some(3.0));
    assert_eq!(quote.index.map(f), Some(2.0));
    assert_eq!(quote.volume_24h.map(f), Some(4.0));
    apply_tick(&mut quote, &MarketTick::default());
    assert_eq!(quote.mark.map(f), Some(3.0));
}

#[test]
fn trades_keep_to_forty_newest_first() {
    let mut trades: Vec<Trade> = (0..39).map(|i| trade(i as f64)).collect();
    prepend_trades(&mut trades, vec![trade(100.0), trade(101.0)]);
    assert_eq!(trades.len(), 40);
    assert_eq!(f(trades[0].price), 100.0);
    assert_eq!(f(trades[1].price), 101.0);
    assert_eq!(f(trades[39].price), 37.0);
}

#[test]
fn markets_sort_by_rank_and_name() {
    let markets: Vec<MarketListing> = ["b", "ETH", "A", "SOL", "\u{e9}", "BTC", "B"]
        .iter()
        .map(|symbol| MarketListing::placeholder(symbol))
        .collect();
    let order: Vec<String> = sort_markets(&markets).iter().map(|m| m.symbol.clone()).collect();
    assert_eq!(order, vec!["SOL", "BTC", "ETH", "A", "B", "b", "\u{e9}"]);
    assert_eq!(market_rank("SOL"), 0);
    assert_eq!(market_rank("sol"), 10);
}
