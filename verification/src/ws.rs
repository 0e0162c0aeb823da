//! The exchange's stream: what its messages say, and what is sent to choose
//! them.

use crate::double::Double;
use crate::json::{
    object_value, parse_json, parsed_json, text_value, trees, value_text, written_json, Json,
    Opened, Tree,
};
use crate::lists::{either, first, kept, lemma_kept_step};
use crate::market::{
    deals, mid_from_levels, midway, percent_change, percent_since, Book, BookLevel, Candle, Deal,
    OrderBook, Trade, HUNDRED,
};
use crate::text;
use crate::text::text_equal;
use crate::timeframe::Timeframe;
use vstd::prelude::*;

pub mod laws;

verus! {

pub const DEFAULT_WS_URL: &'static str = "wss://perp-api.phoenix.trade/v1/ws";

/// The largest funding that is taken as a fraction, one twentieth.
pub const LARGEST_FRACTION: u64 = 0x3fa9_9999_9999_999a;

/// What a market message says; what it does not say stays as it was.
#[derive(Clone, Copy, Debug)]
pub struct MarketTick {
    pub mark: Option<Double>,
    pub index: Option<Double>,
    pub mid: Option<Double>,
    pub prev_day: Option<Double>,
    pub open_interest: Option<Double>,
    pub volume_24h: Option<Double>,
    pub change_24h_pct: Option<Double>,
    pub funding_pct: Option<Double>,
}

impl MarketTick {
    /// A tick that says nothing.
    pub open spec fn silent() -> MarketTick {
        MarketTick {
            mark: None,
            index: None,
            mid: None,
            prev_day: None,
            open_interest: None,
            volume_24h: None,
            change_24h_pct: None,
            funding_pct: None,
        }
    }
}

impl Default for MarketTick {
    fn default() -> (tick: MarketTick)
        ensures
            tick == MarketTick::silent(),
    {
        MarketTick {
            mark: None,
            index: None,
            mid: None,
            prev_day: None,
            open_interest: None,
            volume_24h: None,
            change_24h_pct: None,
            funding_pct: None,
        }
    }
}

/// A message of the stream.
#[derive(Debug)]
pub enum WsEvent {
    Orderbook(OrderBook),
    Market(MarketTick),
    Trades(Vec<Trade>),
    Mids(Vec<(String, Double)>),
    Candle { timeframe: Timeframe, candle: Candle },
}

/// What a message says.
#[verifier::ext_equal]
pub enum Message {
    Orderbook(Book),
    Market(MarketTick),
    Trades(Seq<Deal>),
    Mids(Seq<(Seq<char>, Double)>),
    Candle { timeframe: Timeframe, candle: Candle },
}

/// What pairs of a symbol and a price say, one by one.
pub open spec fn prices(mids: Seq<(String, Double)>) -> Seq<(Seq<char>, Double)> {
    Seq::new(mids.len(), |i: int| (mids[i].0@, mids[i].1))
}

impl View for WsEvent {
    type V = Message;

    open spec fn view(&self) -> Message {
        match self {
            WsEvent::Orderbook(book) => Message::Orderbook(book@),
            WsEvent::Market(tick) => Message::Market(*tick),
            WsEvent::Trades(trades) => Message::Trades(deals(trades@)),
            WsEvent::Mids(mids) => Message::Mids(prices(mids@)),
            WsEvent::Candle { timeframe, candle } => Message::Candle {
                timeframe: *timeframe,
                candle: *candle,
            },
        }
    }
}

/// Funding in percent: small numbers are fractions, larger ones are percents
/// already.
pub open spec fn funding_percent(value: Double) -> Double {
    if value.absolute().at_most(Double { bits: LARGEST_FRACTION }) {
        value.product(Double { bits: HUNDRED })
    } else {
        value
    }
}

/// The funding that a message tells, in percent.
pub open spec fn funding_in(value: Tree) -> Option<Double> {
    match either(value.number_at("funding"@), value.number_at("fundingRate"@)) {
        Some(funding) => Some(funding_percent(funding)),
        None => None,
    }
}

/// One level of a book: a pair of price and size, the size not zero.
pub open spec fn level_in(entry: Tree) -> Option<BookLevel> {
    let pair = entry.items();
    if pair.len() < 2 {
        None
    } else {
        match (pair[0].number(), pair[1].number()) {
            (Some(price), Some(size)) if size.positive() => Some(BookLevel { price, size }),
            _ => None,
        }
    }
}

pub open spec fn levels_in(entries: Seq<Tree>) -> Seq<BookLevel> {
    kept(entries, |entry: Tree| level_in(entry))
}

pub open spec fn or_empty(s: Option<Seq<char>>) -> Seq<char> {
    match s {
        Some(s) => s,
        None => seq![],
    }
}

/// The book of a message, which may stand in a member of its own; none where
/// both sides are empty.
pub open spec fn book_in(value: Tree) -> Option<Book> {
    let book = match value.field("orderbook"@) {
        Some(book) => book,
        None => value,
    };
    let bids = levels_in(book.items_at("bids"@));
    let asks = levels_in(book.items_at("asks"@));
    if bids.len() == 0 && asks.len() == 0 {
        None
    } else {
        Some(
            Book {
                symbol: or_empty(value.text_at("symbol"@)),
                bids,
                asks,
                mid: either(
                    either(book.number_at("mid"@), value.number_at("mid"@)),
                    midway(bids, asks),
                ),
            },
        )
    }
}

/// The tick of a market message.
pub open spec fn tick_in(value: Tree) -> MarketTick {
    let prev = either(value.number_at("prevDayPx"@), value.number_at("prevDayPrice"@));
    let mid = either(value.number_at("midPx"@), value.number_at("mid"@));
    let mark = either(
        either(value.number_at("markPx"@), value.number_at("markPrice"@)),
        mid,
    );
    MarketTick {
        mark,
        index: either(
            either(value.number_at("oraclePx"@), value.number_at("indexPx"@)),
            value.number_at("indexPrice"@),
        ),
        mid,
        prev_day: prev,
        open_interest: either(
            value.number_at("openInterest"@),
            value.number_at("openInterestBase"@),
        ),
        volume_24h: either(
            either(value.number_at("dayNtlVlm"@), value.number_at("volume24h"@)),
            value.number_at("dayVolume"@),
        ),
        change_24h_pct: percent_since(prev, mark),
        funding_pct: funding_in(value),
    }
}

/// The time stamp of a trade: its text, or its integer, or the integer `time`.
pub open spec fn timestamp_in(value: Tree) -> Seq<char> {
    let time = match value.integer_at("time"@) {
        Some(n) => text::integer(n),
        None => seq![],
    };
    match value.field("timestamp"@) {
        Some(Tree::Text(s)) => s,
        Some(Tree::Number(n)) => match n.signed {
            Some(n) => text::integer(n as int),
            None => time,
        },
        _ => time,
    }
}

pub open spec fn buying(side: Seq<char>) -> bool {
    side == "bid"@ || side == "b"@ || side == "buy"@ || side == "Buy"@
}

/// A trade; none without a price. A negative size sells, a positive one buys,
/// and without a size the side tells.
pub open spec fn deal_in(value: Tree) -> Option<Deal> {
    match either(value.number_at("price"@), value.number_at("px"@)) {
        Some(price) => {
            let size = match either(
                either(value.number_at("size"@), value.number_at("baseAmount"@)),
                either(value.number_at("baseQty"@), value.number_at("sz"@)),
            ) {
                Some(size) => size,
                None => Double { bits: 0 },
            };
            Some(
                Deal {
                    price,
                    size: size.absolute(),
                    notional: either(
                        either(value.number_at("notional"@), value.number_at("quoteAmount"@)),
                        value.number_at("quoteQty"@),
                    ),
                    is_buy: !size.below(Double { bits: 0 }) && (buying(
                        or_empty(value.text_at("side"@)),
                    ) || size.positive()),
                    timestamp: timestamp_in(value),
                },
            )
        },
        None => None,
    }
}

/// A time in milliseconds, of one that may be in seconds. The product wraps
/// where it leaves 64 bits.
pub open spec fn to_milliseconds(time: i64) -> i64 {
    if time > 10_000_000_000 {
        time
    } else {
        time.wrapping_mul(1000)
    }
}

/// A bar; none without its time and its four prices.
pub open spec fn candle_in(value: Tree) -> Option<Candle> {
    match (
        value.integer_at("time"@),
        value.number_at("open"@),
        value.number_at("high"@),
        value.number_at("low"@),
        value.number_at("close"@),
    ) {
        (Some(time), Some(open), Some(high), Some(low), Some(close)) => Some(
            Candle {
                time_ms: to_milliseconds(time as i64),
                open,
                high,
                low,
                close,
                volume: match value.number_at("volume"@) {
                    Some(volume) => volume,
                    None => Double { bits: 0 },
                },
                volume_quote: value.number_at("volumeQuote"@),
                trade_count: match value.integer_at("tradeCount"@) {
                    Some(n) => Some(
                        if n < 0 {
                            0u32
                        } else {
                            (n % 0x1_0000_0000) as u32
                        },
                    ),
                    None => None,
                },
            },
        ),
        _ => None,
    }
}

/// The price of a member of the mids.
pub open spec fn mid_in(member: (Seq<char>, Tree)) -> Option<(Seq<char>, Double)> {
    match member.1.number() {
        Some(price) => Some((member.0, price)),
        None => None,
    }
}

/// The members of the member `mids`, where that is an object.
pub open spec fn mids_in(value: Tree) -> Seq<(Seq<char>, Double)> {
    let members = match value.field("mids"@) {
        Some(mids) => mids.members(),
        None => seq![],
    };
    kept(members, |member: (Seq<char>, Tree)| mid_in(member))
}

/// The channel of a message.
pub open spec fn channel_in(value: Tree) -> Seq<char> {
    or_empty(either(value.text_at("channel"@), value.text_at("type"@)))
}

/// What a message says; nothing where it tells no market data.
pub open spec fn message_in(value: Tree) -> Option<Message> {
    let channel = channel_in(value);
    if channel == "orderbook"@ {
        match book_in(value) {
            Some(book) => Some(Message::Orderbook(book)),
            None => None,
        }
    } else if channel == "market"@ {
        Some(Message::Market(tick_in(value)))
    } else if channel == "trades"@ {
        Some(Message::Trades(kept(value.items_at("trades"@), |entry: Tree| deal_in(entry))))
    } else if channel == "allMids"@ {
        Some(Message::Mids(mids_in(value)))
    } else if channel == "candle"@ || channel == "candles"@ {
        let timeframe = match value.text_at("timeframe"@) {
            Some(name) => Timeframe::named(name),
            None => None,
        };
        let candle = match value.field("candle"@) {
            Some(inner) => candle_in(inner),
            None => None,
        };
        match (timeframe, candle) {
            (Some(timeframe), Some(candle)) => Some(Message::Candle { timeframe, candle }),
            _ => None,
        }
    } else if channel == "fundingRate"@ {
        Some(
            Message::Market(
                MarketTick { funding_pct: funding_in(value), ..MarketTick::silent() },
            ),
        )
    } else {
        None
    }
}

pub fn funding_to_percent(value: Double) -> (result: Double)
    ensures
        result == funding_percent(value),
{
    if value.abs().is_at_most(Double { bits: LARGEST_FRACTION }) {
        value.times(Double { bits: HUNDRED })
    } else {
        value
    }
}

fn parse_funding(value: &Json) -> (result: Option<Double>)
    ensures
        result == funding_in(value.tree()),
{
    match first(value.number_at("funding"), value.number_at("fundingRate")) {
        Some(funding) => Some(funding_to_percent(funding)),
        None => None,
    }
}

fn parse_level(entry: &Json) -> (result: Option<BookLevel>)
    ensures
        result == level_in(entry.tree()),
{
    let pair: &Vec<Json> = match entry.as_list() {
        Some(pair) => pair,
        None => {
            return None;
        },
    };
    if pair.len() < 2 {
        return None;
    }
    match (pair[0].number(), pair[1].number()) {
        (Some(price), Some(size)) => if size.is_positive() {
            Some(BookLevel { price, size })
        } else {
            None
        },
        _ => None,
    }
}

pub fn levels(entries: Option<&Vec<Json>>) -> (result: Vec<BookLevel>)
    ensures
        result@ == levels_in(
            match entries {
                Some(entries) => trees(entries@),
                None => seq![],
            },
        ),
{
    let mut result: Vec<BookLevel> = Vec::new();
    if let Some(entries) = entries {
        let ghost f = |entry: Tree| level_in(entry);
        let ghost all = trees(entries@);
        let mut i: usize = 0;
        while i < entries.len()
            invariant
                i <= entries.len(),
                all == trees(entries@),
                f == (|entry: Tree| level_in(entry)),
                result@ == kept(all.take(i as int), f),
            decreases entries.len() - i,
        {
            proof {
                lemma_kept_step(all, f, i as int);
            }
            if let Some(level) = parse_level(&entries[i]) {
                result.push(level);
            }
            i = i + 1;
        }
        assert(all.take(all.len() as int) == all);
    }
    result
}

fn text_or_empty(s: Option<&str>) -> (result: String)
    ensures
        result@ == match s {
            Some(s) => s@,
            None => Seq::<char>::empty(),
        },
{
    match s {
        Some(s) => s.to_owned(),
        None => String::new(),
    }
}

fn parse_orderbook(value: &Json) -> (result: Option<OrderBook>)
    ensures
        match result {
            Some(book) => book_in(value.tree()) == Some(book@),
            None => book_in(value.tree()) is None,
        },
{
    let book: &Json = match value.get("orderbook") {
        Some(book) => book,
        None => value,
    };
    let bids: Vec<BookLevel> = levels(book.items_at("bids"));
    let asks: Vec<BookLevel> = levels(book.items_at("asks"));
    if bids.len() == 0 && asks.len() == 0 {
        return None;
    }
    let mid: Option<Double> = first(
        first(book.number_at("mid"), value.number_at("mid")),
        mid_from_levels(&bids, &asks),
    );
    Some(OrderBook { symbol: text_or_empty(value.text_at("symbol")), bids, asks, mid })
}

fn parse_market(value: &Json) -> (result: MarketTick)
    ensures
        result == tick_in(value.tree()),
{
    let prev: Option<Double> = first(value.number_at("prevDayPx"), value.number_at("prevDayPrice"));
    let mid: Option<Double> = first(value.number_at("midPx"), value.number_at("mid"));
    let mark: Option<Double> = first(
        first(value.number_at("markPx"), value.number_at("markPrice")),
        mid,
    );
    MarketTick {
        mark,
        index: first(
            first(value.number_at("oraclePx"), value.number_at("indexPx")),
            value.number_at("indexPrice"),
        ),
        mid,
        prev_day: prev,
        open_interest: first(value.number_at("openInterest"), value.number_at("openInterestBase")),
        volume_24h: first(
            first(value.number_at("dayNtlVlm"), value.number_at("volume24h")),
            value.number_at("dayVolume"),
        ),
        change_24h_pct: percent_change(prev, mark),
        funding_pct: parse_funding(value),
    }
}

fn parse_timestamp(value: &Json) -> (result: String)
    ensures
        result@ == timestamp_in(value.tree()),
{
    match value.get("timestamp") {
        Some(Json::Text(s)) => {
            return s.clone();
        },
        Some(Json::Number(n)) => {
            if let Some(n) = n.signed {
                return text::integer_text(n);
            }
        },
        _ => {},
    }
    match value.integer_at("time") {
        Some(n) => text::integer_text(n),
        None => String::new(),
    }
}

fn is_buying(side: &str) -> (answer: bool)
    ensures
        answer == buying(side@),
{
    text_equal(side, "bid") || text_equal(side, "b") || text_equal(side, "buy") || text_equal(
        side,
        "Buy",
    )
}

fn parse_trade(value: &Json) -> (result: Option<Trade>)
    ensures
        match result {
            Some(trade) => deal_in(value.tree()) == Some(trade@),
            None => deal_in(value.tree()) is None,
        },
{
    let price: Double = match first(value.number_at("price"), value.number_at("px")) {
        Some(price) => price,
        None => {
            return None;
        },
    };
    let size: Double = match first(
        first(value.number_at("size"), value.number_at("baseAmount")),
        first(value.number_at("baseQty"), value.number_at("sz")),
    ) {
        Some(size) => size,
        None => Double { bits: 0 },
    };
    let notional: Option<Double> = first(
        first(value.number_at("notional"), value.number_at("quoteAmount")),
        value.number_at("quoteQty"),
    );
    let side: String = text_or_empty(value.text_at("side"));
    let buys: bool = is_buying(side.as_str());
    Some(
        Trade {
            price,
            size: size.abs(),
            notional,
            is_buy: !size.is_below(Double { bits: 0 }) && (buys || size.is_positive()),
            timestamp: parse_timestamp(value),
        },
    )
}

fn parse_trades(value: &Json) -> (result: Vec<Trade>)
    ensures
        deals(result@) == kept(
            value.tree().items_at("trades"@),
            |entry: Tree| deal_in(entry),
        ),
{
    let mut result: Vec<Trade> = Vec::new();
    if let Some(entries) = value.items_at("trades") {
        let ghost f = |entry: Tree| deal_in(entry);
        let ghost all = trees(entries@);
        let mut i: usize = 0;
        assert(deals(result@) == kept(all.take(0), f));
        while i < entries.len()
            invariant
                i <= entries.len(),
                all == trees(entries@),
                f == (|entry: Tree| deal_in(entry)),
                deals(result@) == kept(all.take(i as int), f),
            decreases entries.len() - i,
        {
            proof {
                lemma_kept_step(all, f, i as int);
            }
            let ghost before = result@;
            if let Some(trade) = parse_trade(&entries[i]) {
                result.push(trade);
                assert(deals(result@) == deals(before).push(trade@));
            }
            i = i + 1;
        }
        assert(all.take(all.len() as int) == all);
    }
    assert(value.tree().items_at("trades"@).len() == 0 ==> deals(result@) =~= Seq::empty());
    result
}

fn parse_mids(value: &Json) -> (result: Vec<(String, Double)>)
    ensures
        prices(result@) == mids_in(value.tree()),
{
    let mut result: Vec<(String, Double)> = Vec::new();
    let inner: Option<&Json> = value.get("mids");
    if let Some(mids) = inner {
        if let Some(members) = mids.as_object() {
            let ghost f = |member: (Seq<char>, Tree)| mid_in(member);
            let ghost all = crate::json::named_trees(members@);
            let mut i: usize = 0;
            assert(prices(result@) == kept(all.take(0), f));
            while i < members.len()
                invariant
                    i <= members.len(),
                    all == crate::json::named_trees(members@),
                    f == (|member: (Seq<char>, Tree)| mid_in(member)),
                    prices(result@) == kept(all.take(i as int), f),
                decreases members.len() - i,
            {
                proof {
                    lemma_kept_step(all, f, i as int);
                }
                let ghost before = result@;
                if let Some(price) = members[i].1.number() {
                    let name: String = members[i].0.clone();
                    result.push((name, price));
                    assert(prices(result@) == prices(before).push((name@, price)));
                }
                i = i + 1;
            }
            assert(all.take(all.len() as int) == all);
            return result;
        }
    }
    assert(prices(result@) == mids_in(value.tree()));
    result
}

pub fn parse_candle(value: &Json) -> (result: Option<Candle>)
    ensures
        result == candle_in(value.tree()),
        result matches Some(candle) ==> {
            &&& value.tree().number_at("open"@) == Some(candle.open)
            &&& value.tree().number_at("high"@) == Some(candle.high)
            &&& value.tree().number_at("low"@) == Some(candle.low)
            &&& value.tree().number_at("close"@) == Some(candle.close)
            &&& value.tree().number_at("volumeQuote"@) == candle.volume_quote
            &&& value.tree().integer_at("time"@) is Some
        },
        result is None <==> value.tree().integer_at("time"@) is None || value.tree().number_at(
            "open"@,
        ) is None || value.tree().number_at("high"@) is None || value.tree().number_at("low"@) is
            None || value.tree().number_at("close"@) is None,
{
    match (
        value.integer_at("time"),
        value.number_at("open"),
        value.number_at("high"),
        value.number_at("low"),
        value.number_at("close"),
    ) {
        (Some(time), Some(open), Some(high), Some(low), Some(close)) => Some(
            Candle {
                time_ms: if time > 10_000_000_000 { time } else { time.wrapping_mul(1000) },
                open,
                high,
                low,
                close,
                volume: match value.number_at("volume") {
                    Some(volume) => volume,
                    None => Double { bits: 0 },
                },
                volume_quote: value.number_at("volumeQuote"),
                trade_count: match value.integer_at("tradeCount") {
                    Some(n) => Some(if n < 0 { 0 } else { (n % 0x1_0000_0000) as u32 }),
                    None => None,
                },
            },
        ),
        _ => None,
    }
}

fn parse_bar(value: &Json) -> (result: Option<WsEvent>)
    ensures
        ({
            let timeframe = match value.tree().text_at("timeframe"@) {
                Some(name) => Timeframe::named(name),
                None => None,
            };
            let candle = match value.tree().field("candle"@) {
                Some(inner) => candle_in(inner),
                None => None,
            };
            match result {
                Some(event) => timeframe is Some && candle is Some && event@ == (Message::Candle {
                    timeframe: timeframe->0,
                    candle: candle->0,
                }),
                None => timeframe is None || candle is None,
            }
        }),
{
    let timeframe: Option<Timeframe> = match value.text_at("timeframe") {
        Some(name) => Timeframe::from_api(name),
        None => None,
    };
    let candle: Option<Candle> = match value.get("candle") {
        Some(inner) => parse_candle(inner),
        None => None,
    };
    match (timeframe, candle) {
        (Some(timeframe), Some(candle)) => Some(WsEvent::Candle { timeframe, candle }),
        _ => None,
    }
}

/// What a message says, given as a JSON value.
pub fn event_from_json(value: &Json) -> (result: Option<WsEvent>)
    ensures
        match result {
            Some(event) => message_in(value.tree()) == Some(event@),
            None => message_in(value.tree()) is None,
        },
{
    let named: Option<&str> = match value.text_at("channel") {
        Some(name) => Some(name),
        None => value.text_at("type"),
    };
    let channel: String = text_or_empty(named);
    let channel: &str = channel.as_str();
    if text_equal(channel, "orderbook") {
        match parse_orderbook(value) {
            Some(book) => Some(WsEvent::Orderbook(book)),
            None => None,
        }
    } else if text_equal(channel, "market") {
        Some(WsEvent::Market(parse_market(value)))
    } else if text_equal(channel, "trades") {
        Some(WsEvent::Trades(parse_trades(value)))
    } else if text_equal(channel, "allMids") {
        Some(WsEvent::Mids(parse_mids(value)))
    } else if text_equal(channel, "candle") || text_equal(channel, "candles") {
        parse_bar(value)
    } else if text_equal(channel, "fundingRate") {
        Some(
            WsEvent::Market(
                MarketTick {
                    mark: None,
                    index: None,
                    mid: None,
                    prev_day: None,
                    open_interest: None,
                    volume_24h: None,
                    change_24h_pct: None,
                    funding_pct: parse_funding(value),
                },
            ),
        )
    } else {
        None
    }
}

/// A message's text tells an event, or tells none: it is no JSON, or JSON that
/// says nothing.
pub open spec fn told(text: Seq<char>, event: Option<WsEvent>) -> bool {
    match (parsed_json(text), event) {
        (Some(value), Some(event)) => message_in(value) == Some(event@),
        (Some(value), None) => message_in(value) is None,
        (None, event) => event is None,
    }
}

/// What a message says, given as text; nothing where it is no JSON.
pub fn parse_event(text: &str) -> (result: Option<WsEvent>)
    ensures
        told(text@, result),
{
    match parse_json(text) {
        Some(json) => event_from_json(&json),
        None => None,
    }
}

/// Which market and which bars a connection to the stream is told to send.
#[derive(Debug)]
pub struct PhoenixWs {
    pub symbol: String,
    pub timeframe: Timeframe,
}

/// What is received on a connection, or what came in its place.
#[derive(Debug)]
pub enum Frame {
    Text(String),
    Binary(Vec<u8>),
    Ping,
    Other,
    Close,
    TimedOut,
    Failed(String),
}

/// The members of a subscription, in the order of their names.
pub open spec fn subscription(
    channel: Seq<char>,
    symbol: Option<Seq<char>>,
    timeframe: Option<Timeframe>,
) -> Seq<(Seq<char>, Tree)> {
    let named = seq![("channel"@, Tree::Text(channel))];
    let marked = match symbol {
        Some(symbol) => named.push(("symbol"@, Tree::Text(symbol))),
        None => named,
    };
    match timeframe {
        Some(timeframe) => marked.push(("timeframe"@, Tree::Text(timeframe.api_name()))),
        None => marked,
    }
}

/// The text of a message that starts or ends a subscription.
pub open spec fn subscription_text(
    subscribe: bool,
    channel: Seq<char>,
    symbol: Option<Seq<char>>,
    timeframe: Option<Timeframe>,
) -> Seq<char> {
    let verb = if subscribe {
        "subscribe"@
    } else {
        "unsubscribe"@
    };
    written_json(
        Tree::Object(
            seq![
                ("subscription"@, Tree::Object(subscription(channel, symbol, timeframe))),
                ("type"@, Tree::Text(verb)),
            ],
        ),
    )
}

/// The texts of the messages that start or end all that a market's desk needs.
pub open spec fn subscription_texts(
    symbol: Seq<char>,
    timeframe: Timeframe,
    subscribe: bool,
) -> Seq<Seq<char>> {
    seq![
        subscription_text(subscribe, "allMids"@, None, None),
        subscription_text(subscribe, "orderbook"@, Some(symbol), None),
        subscription_text(subscribe, "market"@, Some(symbol), None),
        subscription_text(subscribe, "trades"@, Some(symbol), None),
        subscription_text(subscribe, "fundingRate"@, Some(symbol), None),
        subscription_text(subscribe, "candles"@, Some(symbol), Some(timeframe)),
    ]
}

/// What texts say, one by one.
pub open spec fn texts(list: Seq<String>) -> Seq<Seq<char>> {
    Seq::new(list.len(), |i: int| list[i]@)
}

/// What a binary message reads as.
pub uninterp spec fn lossy_utf8(bytes: Seq<u8>) -> Seq<char>;

/// `String::from_utf8_lossy`, of which only the name `lossy_utf8` is claimed: the
/// text depends on the bytes alone.
#[verifier::external_body]
fn lossy_text(bytes: &Vec<u8>) -> (text: String)
    ensures
        text@ == lossy_utf8(bytes@),
{
    String::from_utf8_lossy(bytes).into_owned()
}

proof fn lemma_member_names()
    ensures
        text::precedes("channel"@, "symbol"@),
        text::precedes("channel"@, "timeframe"@),
        text::precedes("symbol"@, "timeframe"@),
        text::precedes("subscription"@, "type"@),
{
    reveal_strlit("channel");
    reveal_strlit("symbol");
    reveal_strlit("timeframe");
    reveal_strlit("subscription");
    reveal_strlit("type");
    reveal_with_fuel(text::precedes, 2);
}

fn write_subscription(
    subscribe: bool,
    channel: &str,
    symbol: Option<&str>,
    timeframe: Option<Timeframe>,
) -> (message: String)
    requires
        timeframe is Some ==> symbol is Some,
    ensures
        message@ == subscription_text(
            subscribe,
            channel@,
            match symbol {
                Some(symbol) => Some(symbol@),
                None => None,
            },
            timeframe,
        ),
{
    proof {
        lemma_member_names();
    }
    let ghost view = match symbol {
        Some(symbol) => Some(symbol@),
        None => None,
    };
    let mut inner: Vec<(String, serde_json::Value)> = Vec::new();
    inner.push(("channel".to_owned(), text_value(channel.to_owned())));
    if let Some(symbol) = symbol {
        inner.push(("symbol".to_owned(), text_value(symbol.to_owned())));
    }
    if let Some(timeframe) = timeframe {
        inner.push(("timeframe".to_owned(), text_value(timeframe.as_api().to_owned())));
    }
    assert(Opened::Object(inner).tree()->Object_0 =~= subscription(channel@, view, timeframe));
    let inner: serde_json::Value = object_value(inner);
    let verb: &str = if subscribe {
        "subscribe"
    } else {
        "unsubscribe"
    };
    let mut members: Vec<(String, serde_json::Value)> = Vec::new();
    members.push(("subscription".to_owned(), inner));
    members.push(("type".to_owned(), text_value(verb.to_owned())));
    assert(Opened::Object(members).tree()->Object_0 =~= seq![
        ("subscription"@, Tree::Object(subscription(channel@, view, timeframe))),
        ("type"@, Tree::Text(verb@)),
    ]);
    value_text(&object_value(members))
}

impl PhoenixWs {
    pub fn new(symbol: &str, timeframe: Timeframe) -> (ws: PhoenixWs)
        ensures
            ws.symbol@ == symbol@,
            ws.timeframe == timeframe,
    {
        PhoenixWs { symbol: symbol.to_owned(), timeframe }
    }

    /// The messages that start or end what the connection is told to send.
    pub fn subscriptions(&self, subscribe: bool) -> (messages: Vec<String>)
        ensures
            texts(messages@) == subscription_texts(self.symbol@, self.timeframe, subscribe),
    {
        let symbol: &str = self.symbol.as_str();
        let mut messages: Vec<String> = Vec::new();
        messages.push(write_subscription(subscribe, "allMids", None, None));
        messages.push(write_subscription(subscribe, "orderbook", Some(symbol), None));
        messages.push(write_subscription(subscribe, "market", Some(symbol), None));
        messages.push(write_subscription(subscribe, "trades", Some(symbol), None));
        messages.push(write_subscription(subscribe, "fundingRate", Some(symbol), None));
        messages.push(write_subscription(subscribe, "candles", Some(symbol), Some(self.timeframe)));
        messages
    }

    /// Turns to another market or other bars. Gives the messages to send for it,
    /// first those that end the old subscriptions, then those that start the new
    /// ones, and none where nothing changes.
    pub fn set_selection(&mut self, symbol: &str, timeframe: Timeframe) -> (messages: (
        Vec<String>,
        Vec<String>,
    ))
        ensures
            final(self).symbol@ == symbol@,
            final(self).timeframe == timeframe,
            if old(self).symbol@ == symbol@ && old(self).timeframe == timeframe {
                texts(messages.0@) == Seq::<Seq<char>>::empty() && texts(messages.1@) == Seq::<
                    Seq<char>,
                >::empty()
            } else {
                texts(messages.0@) == subscription_texts(
                    old(self).symbol@,
                    old(self).timeframe,
                    false,
                ) && texts(messages.1@) == subscription_texts(symbol@, timeframe, true)
            },
    {
        if text_equal(self.symbol.as_str(), symbol) && self.timeframe == timeframe {
            return (Vec::new(), Vec::new());
        }
        let ended: Vec<String> = self.subscriptions(false);
        self.symbol = symbol.to_owned();
        self.timeframe = timeframe;
        (ended, self.subscriptions(true))
    }

    /// What has come of one look at the connection: an event, nothing, or why the
    /// connection is of no more use.
    pub fn poll(frame: Frame) -> (result: Result<Option<WsEvent>, String>)
        ensures
            match frame {
                Frame::Text(text) => result matches Ok(event) && told(text@, event),
                Frame::Binary(bytes) => result matches Ok(event) && told(lossy_utf8(bytes@), event),
                Frame::Ping | Frame::Other | Frame::TimedOut => result matches Ok(None),
                Frame::Close => result matches Err(error) && error@ == "phoenix ws closed"@,
                Frame::Failed(reason) => result matches Err(error) && error@ == reason@,
            },
    {
        match frame {
            Frame::Text(text) => Ok(parse_event(text.as_str())),
            Frame::Binary(bytes) => Ok(parse_event(lossy_text(&bytes).as_str())),
            Frame::Ping | Frame::Other | Frame::TimedOut => Ok(None),
            Frame::Close => Err("phoenix ws closed".to_owned()),
            Frame::Failed(reason) => Err(reason),
        }
    }
}

/// A message of a channel that tells no market data says nothing.
pub proof fn other_channels_are_silent(value: Tree)
    requires
        channel_in(value) != "orderbook"@,
        channel_in(value) != "market"@,
        channel_in(value) != "trades"@,
        channel_in(value) != "allMids"@,
        channel_in(value) != "candle"@,
        channel_in(value) != "candles"@,
        channel_in(value) != "fundingRate"@,
    ensures
        message_in(value) is None,
{
}

/// Every level of a book has a size greater than zero.
pub proof fn book_levels_are_sound(entries: Seq<Tree>, i: int)
    requires
        0 <= i < levels_in(entries).len(),
    ensures
        levels_in(entries)[i].price.finite(),
        levels_in(entries)[i].size.finite(),
        levels_in(entries)[i].size.positive(),
    decreases entries.len(),
{
    if entries.len() > 0 {
        let front = entries.drop_last();
        if i < levels_in(front).len() {
            book_levels_are_sound(front, i);
        } else {
            let level = levels_in(entries)[i];
            assert(level_in(entries.last()) == Some(level));
            lemma_number_is_finite(entries.last().items()[0]);
            lemma_number_is_finite(entries.last().items()[1]);
        }
    }
}

proof fn lemma_number_is_finite(value: Tree)
    ensures
        value.number() matches Some(x) ==> x.finite(),
{
    if let Tree::Text(s) = value {
        crate::double::parse::parsed_is_finite(s);
    }
}

} // verus!
