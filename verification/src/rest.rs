//! The exchange's requests and replies: addresses, refusals, and what the parsed
//! replies mean as market data.

use crate::double::convert::{ONE_BITS, TEN_BITS};
use crate::double::parse::parsed_double;
use crate::double::Double;
use crate::json::{Json, Tree};
use crate::lists::{kept, lemma_kept_step};
use crate::market::{
    desk_from_live, mid_from_levels, midway, Book, BookLevel, Candle, DeskSnapshot, Listing,
    LiveQuote, MarketListing, OrderBook, Quote, DEFAULT_API_URL,
};
use crate::text;
use crate::timeframe::Timeframe;
use vstd::prelude::*;

pub mod laws;

verus! {

/// The seconds to wait where a refusal does not say how many.
pub const DEFAULT_RETRY_AFTER: u64 = 8;

/// The most seconds to wait.
pub const LONGEST_RETRY_AFTER: u64 = 60;

/// The bars that a desk is loaded with.
pub const DESK_BARS: u32 = 240;

/// How much of a reply an error message shows.
pub const PREVIEW_LENGTH: usize = 120;

/// The exchange asks for a pause of some seconds.
#[derive(Clone, Copy, Debug, PartialEq, Eq, Structural)]
pub struct RateLimit {
    pub retry_after: u64,
}

impl RateLimit {
    pub open spec fn text(self) -> Seq<char> {
        "phoenix rate limited, retry after "@ + text::digits(
            if self.retry_after == 0 {
                1
            } else {
                self.retry_after as nat
            },
        ) + "s"@
    }

    /// The limit in words, never with less than one second.
    pub fn message(&self) -> (message: String)
        ensures
            message@ == self.text(),
    {
        let mut out: Vec<char> = Vec::new();
        text::push_text(&mut out, "phoenix rate limited, retry after ");
        text::push_digits(&mut out, if self.retry_after == 0 { 1 } else { self.retry_after as u128 });
        text::push_text(&mut out, "s");
        text::text_of(out.as_slice())
    }
}

/// Why a request gave nothing.
#[derive(Debug)]
pub enum RestError {
    RateLimited(RateLimit),
    Failed(String),
}

/// What an error says.
#[verifier::ext_equal]
pub enum Refusal {
    RateLimited(RateLimit),
    Failed(Seq<char>),
}

impl View for RestError {
    type V = Refusal;

    open spec fn view(&self) -> Refusal {
        match self {
            RestError::RateLimited(limit) => Refusal::RateLimited(*limit),
            RestError::Failed(message) => Refusal::Failed(message@),
        }
    }
}

impl Refusal {
    pub open spec fn text(self) -> Seq<char> {
        match self {
            Refusal::RateLimited(limit) => limit.text(),
            Refusal::Failed(message) => message,
        }
    }

    pub open spec fn pause(self) -> Option<u64> {
        match self {
            Refusal::RateLimited(limit) => Some(limit.retry_after),
            Refusal::Failed(_) => None,
        }
    }
}

impl RestError {
    pub fn message(&self) -> (message: String)
        ensures
            message@ == self@.text(),
    {
        match self {
            RestError::RateLimited(limit) => limit.message(),
            RestError::Failed(message) => message.clone(),
        }
    }
}

/// The seconds that the exchange asks to wait, where it does.
pub fn retry_after(error: &RestError) -> (pause: Option<u64>)
    ensures
        pause == error@.pause(),
{
    match error {
        RestError::RateLimited(limit) => Some(limit.retry_after),
        RestError::Failed(_) => None,
    }
}

/// The seconds that a `retry-after` header asks for, kept between one and sixty.
pub open spec fn header_pause(header: Option<Seq<char>>) -> int {
    let asked = match header {
        Some(value) => match text::parsed_unsigned(value) {
            Some(seconds) => seconds,
            None => DEFAULT_RETRY_AFTER as int,
        },
        None => DEFAULT_RETRY_AFTER as int,
    };
    if asked < 1 {
        1
    } else if asked > LONGEST_RETRY_AFTER {
        LONGEST_RETRY_AFTER as int
    } else {
        asked
    }
}

pub open spec fn header_chars(header: Option<&str>) -> Option<Seq<char>> {
    match header {
        Some(value) => Some(value@),
        None => None,
    }
}

pub fn retry_after_header(header: Option<&str>) -> (seconds: u64)
    ensures
        seconds == header_pause(header_chars(header)),
{
    let asked: u64 = match header {
        Some(value) => {
            let chars: Vec<char> = text::chars_of(value);
            match text::parse_unsigned(chars.as_slice()) {
                Some(seconds) => seconds,
                None => DEFAULT_RETRY_AFTER,
            }
        },
        None => DEFAULT_RETRY_AFTER,
    };
    if asked < 1 {
        1
    } else if asked > LONGEST_RETRY_AFTER {
        LONGEST_RETRY_AFTER
    } else {
        asked
    }
}

/// What is wrong with a reply, by its status and its `retry-after` header.
pub open spec fn refusal(url: Seq<char>, status: u16, header: Option<Seq<char>>) -> Option<Refusal> {
    if status == 429 {
        Some(Refusal::RateLimited(RateLimit { retry_after: header_pause(header) as u64 }))
    } else if 200 <= status < 300 {
        None
    } else {
        Some(
            Refusal::Failed(
                "phoenix GET "@ + url + " returned "@ + text::digits(status as nat),
            ),
        )
    }
}

/// Judges a reply before its body is read.
pub fn check_status(url: &str, status: u16, header: Option<&str>) -> (result: Result<(), RestError>)
    ensures
        match result {
            Ok(_) => refusal(url@, status, header_chars(header)) is None,
            Err(error) => refusal(url@, status, header_chars(header)) == Some(error@),
        },
{
    if status == 429 {
        Err(RestError::RateLimited(RateLimit { retry_after: retry_after_header(header) }))
    } else if 200 <= status && status < 300 {
        Ok(())
    } else {
        let mut out: Vec<char> = Vec::new();
        text::push_text(&mut out, "phoenix GET ");
        text::push_text(&mut out, url);
        text::push_text(&mut out, " returned ");
        text::push_digits(&mut out, status as u128);
        Err(RestError::Failed(text::text_of(out.as_slice())))
    }
}

/// The error of a request that got no reply.
pub fn transport_error(url: &str, reason: &str) -> (error: RestError)
    ensures
        error@ == Refusal::Failed("phoenix GET "@ + url@ + ": "@ + reason@),
{
    let mut out: Vec<char> = Vec::new();
    text::push_text(&mut out, "phoenix GET ");
    text::push_text(&mut out, url);
    text::push_text(&mut out, ": ");
    text::push_text(&mut out, reason);
    RestError::Failed(text::text_of(out.as_slice()))
}

/// The error of a reply whose body cannot be read.
pub fn body_error(url: &str) -> (error: RestError)
    ensures
        error@ == Refusal::Failed("phoenix GET "@ + url@ + " body"@),
{
    let mut out: Vec<char> = Vec::new();
    text::push_text(&mut out, "phoenix GET ");
    text::push_text(&mut out, url);
    text::push_text(&mut out, " body");
    RestError::Failed(text::text_of(out.as_slice()))
}

/// The beginning of a body, on one line.
pub open spec fn preview(body: Seq<char>) -> Seq<char> {
    let shown = if body.len() <= PREVIEW_LENGTH {
        body.len()
    } else {
        PREVIEW_LENGTH as nat
    };
    Seq::new(
        shown,
        |i: int|
            if body[i] == '\n' {
                ' '
            } else {
                body[i]
            },
    )
}

/// The error of a reply whose body is not what was asked for.
pub fn json_error(url: &str, body: &str) -> (error: RestError)
    ensures
        error@ == Refusal::Failed("phoenix GET "@ + url@ + " JSON: "@ + preview(body@)),
{
    let mut out: Vec<char> = Vec::new();
    text::push_text(&mut out, "phoenix GET ");
    text::push_text(&mut out, url);
    text::push_text(&mut out, " JSON: ");
    let ghost head = out@;
    let chars: Vec<char> = text::chars_of(body);
    let mut i: usize = 0;
    while i < chars.len() && i < PREVIEW_LENGTH
        invariant
            i <= chars.len(),
            i <= PREVIEW_LENGTH,
            chars@ == body@,
            out@ == head + preview(body@).take(i as int),
        decreases chars.len() - i,
    {
        let c: char = chars[i];
        out.push(if c == '\n' { ' ' } else { c });
        i = i + 1;
    }
    assert(preview(body@).take(i as int) == preview(body@));
    RestError::Failed(text::text_of(out.as_slice()))
}

/// Where the exchange is asked.
#[derive(Debug)]
pub struct PhoenixRest {
    pub base: String,
}

/// The address of the bars of a market.
pub open spec fn candles_address(base: Seq<char>, symbol: Seq<char>, timeframe: Timeframe) -> Seq<
    char,
> {
    base + "/v1/candles/"@ + symbol + "?timeframe="@ + timeframe.api_name()
}

impl PhoenixRest {
    /// The exchange itself.
    pub fn new() -> (rest: PhoenixRest)
        ensures
            rest.base@ == DEFAULT_API_URL@,
    {
        proof {
            reveal_strlit("https://perp-api.phoenix.trade");
        }
        PhoenixRest::with_base(DEFAULT_API_URL)
    }

    /// An exchange at a given address, with or without slashes at its end.
    pub fn with_base(base: &str) -> (rest: PhoenixRest)
        ensures
            rest.base@ == text::without_trailing(base@, '/'),
    {
        let mut chars: Vec<char> = text::chars_of(base);
        text::drop_trailing(&mut chars, '/');
        PhoenixRest { base: text::text_of(chars.as_slice()) }
    }

    pub fn markets_url(&self) -> (url: String)
        ensures
            url@ == self.base@ + "/v1/view/exchange/markets"@,
    {
        let mut out: Vec<char> = text::chars_of(self.base.as_str());
        text::push_text(&mut out, "/v1/view/exchange/markets");
        text::text_of(out.as_slice())
    }

    pub fn market_url(&self, symbol: &str) -> (url: String)
        ensures
            url@ == self.base@ + "/v1/view/exchange/market/"@ + symbol@,
    {
        let mut out: Vec<char> = text::chars_of(self.base.as_str());
        text::push_text(&mut out, "/v1/view/exchange/market/");
        text::push_text(&mut out, symbol);
        text::text_of(out.as_slice())
    }

    pub fn orderbook_url(&self, symbol: &str) -> (url: String)
        ensures
            url@ == self.base@ + "/v1/view/orderbook/"@ + symbol@,
    {
        let mut out: Vec<char> = text::chars_of(self.base.as_str());
        text::push_text(&mut out, "/v1/view/orderbook/");
        text::push_text(&mut out, symbol);
        text::text_of(out.as_slice())
    }

    fn candles_start(&self, symbol: &str, timeframe: Timeframe) -> (out: Vec<char>)
        ensures
            out@ == candles_address(self.base@, symbol@, timeframe),
    {
        let mut out: Vec<char> = text::chars_of(self.base.as_str());
        text::push_text(&mut out, "/v1/candles/");
        text::push_text(&mut out, symbol);
        text::push_text(&mut out, "?timeframe=");
        text::push_text(&mut out, timeframe.as_api());
        out
    }

    /// The newest bars.
    pub fn candles_url(&self, symbol: &str, timeframe: Timeframe, limit: u32) -> (url: String)
        ensures
            url@ == candles_address(self.base@, symbol@, timeframe) + "&limit="@ + text::digits(
                limit as nat,
            ),
    {
        let mut out: Vec<char> = self.candles_start(symbol, timeframe);
        text::push_text(&mut out, "&limit=");
        text::push_digits(&mut out, limit as u128);
        text::text_of(out.as_slice())
    }

    /// The bars from a time on.
    pub fn candles_after_url(
        &self,
        symbol: &str,
        timeframe: Timeframe,
        start_time_ms: i64,
        limit: u32,
    ) -> (url: String)
        ensures
            url@ == candles_address(self.base@, symbol@, timeframe) + "&startTime="@
                + text::integer(start_time_ms as int) + "&limit="@ + text::digits(limit as nat),
    {
        let mut out: Vec<char> = self.candles_start(symbol, timeframe);
        text::push_text(&mut out, "&startTime=");
        text::push_integer(&mut out, start_time_ms);
        text::push_text(&mut out, "&limit=");
        text::push_digits(&mut out, limit as u128);
        text::text_of(out.as_slice())
    }
}

impl Default for PhoenixRest {
    fn default() -> (rest: PhoenixRest)
        ensures
            rest.base@ == DEFAULT_API_URL@,
    {
        PhoenixRest::new()
    }
}

/// A market as the exchange replies it. What stands in the reply's objects
/// `metadata` and `statsSnapshot` is absent where the object is.
#[derive(Debug)]
pub struct ApiMarket {
    pub symbol: String,
    pub market_status: Option<String>,
    pub isolated_only: Option<bool>,
    pub taker_fee: Option<Double>,
    pub maker_fee: Option<Double>,
    pub base_lots_decimals: Option<u32>,
    pub leverage_tiers: Vec<ApiLeverageTier>,
    pub metadata: Option<ApiMarketMetadata>,
    pub stats_snapshot: Option<ApiStatsSnapshot>,
    pub commodity_metadata: Option<Json>,
}

#[derive(Debug)]
pub struct ApiLeverageTier {
    pub max_leverage: Option<Double>,
}

#[derive(Debug)]
pub struct ApiMarketMetadata {
    pub name: Option<String>,
}

#[derive(Debug)]
pub struct ApiStatsSnapshot {
    pub open_interest_base_lots: Option<String>,
}

/// A book as the exchange replies it: pairs of price and size.
#[derive(Debug)]
pub struct ApiOrderbook {
    pub symbol: Option<String>,
    pub bids: Vec<[Double; 2]>,
    pub asks: Vec<[Double; 2]>,
}

/// A bar as the exchange replies it.
#[derive(Debug)]
pub struct ApiCandle {
    pub time: Option<i64>,
    pub open: Option<Double>,
    pub high: Option<Double>,
    pub low: Option<Double>,
    pub close: Option<Double>,
    pub volume: Option<Double>,
    pub volume_quote: Option<Double>,
    pub trade_count: Option<u32>,
}

/// Ten to the power of a number of decimals. The number counts as one of 32 bits
/// with a sign, and a negative power is one over the positive one.
pub open spec fn lot_scale(decimals: u32) -> Double {
    let one = Double { bits: ONE_BITS };
    let ten = Double { bits: TEN_BITS };
    if decimals < 0x8000_0000 {
        Double::raised(one, ten, decimals as nat)
    } else {
        one.quotient(Double::raised(one, ten, (0x1_0000_0000 - decimals) as nat))
    }
}

/// Lots, given as text, in units of the base asset.
pub open spec fn base_amount(lots: Option<Seq<char>>, decimals: u32) -> Option<Double> {
    match lots {
        Some(lots) => match parsed_double(lots) {
            Some(lots) => Some(lots.quotient(lot_scale(decimals))),
            None => None,
        },
        None => None,
    }
}

pub open spec fn or_zero(x: Option<Double>) -> Double {
    match x {
        Some(x) => x,
        None => Double { bits: 0 },
    }
}

impl ApiMarket {
    pub open spec fn decimals(&self) -> u32 {
        match self.base_lots_decimals {
            Some(decimals) => decimals,
            None => 0,
        }
    }

    pub open spec fn lots(&self) -> Option<Seq<char>> {
        match self.stats_snapshot {
            Some(stats) => match stats.open_interest_base_lots {
                Some(lots) => Some(lots@),
                None => None,
            },
            None => None,
        }
    }

    /// The name, or the symbol where there is none.
    pub open spec fn shown_name(&self) -> Seq<char> {
        match self.metadata {
            Some(metadata) => match metadata.name {
                Some(name) => if name@.len() > 0 {
                    name@
                } else {
                    self.symbol@
                },
                None => self.symbol@,
            },
            None => self.symbol@,
        }
    }

    pub open spec fn commodity(&self) -> bool {
        match self.commodity_metadata {
            Some(value) => value.tree().field("isCommodity"@) == Some(Tree::Bool(true)),
            None => false,
        }
    }

    /// The listing that a reply describes.
    pub open spec fn listing(&self) -> Listing {
        Listing {
            symbol: self.symbol@,
            name: self.shown_name(),
            status: match self.market_status {
                Some(status) => status@,
                None => "unknown"@,
            },
            isolated_only: self.isolated_only == Some(true),
            max_leverage: if self.leverage_tiers@.len() > 0 {
                or_zero(self.leverage_tiers@[0].max_leverage)
            } else {
                Double { bits: 0 }
            },
            taker_fee: or_zero(self.taker_fee),
            maker_fee: or_zero(self.maker_fee),
            base_lots_decimals: self.decimals(),
            open_interest: or_zero(base_amount(self.lots(), self.decimals())),
            is_commodity: self.commodity(),
            mark: None,
        }
    }
}

/// A level of a pair, unless a number is not finite or the size not positive.
pub open spec fn level_of(pair: [Double; 2]) -> Option<BookLevel> {
    if pair@[0].finite() && pair@[1].finite() && pair@[1].positive() {
        Some(BookLevel { price: pair@[0], size: pair@[1] })
    } else {
        None
    }
}

pub open spec fn levels_of(pairs: Seq<[Double; 2]>) -> Seq<BookLevel> {
    kept(pairs, |pair: [Double; 2]| level_of(pair))
}

impl ApiOrderbook {
    /// The book that a reply describes.
    pub open spec fn book(&self) -> Book {
        let bids = levels_of(self.bids@);
        let asks = levels_of(self.asks@);
        Book {
            symbol: match self.symbol {
                Some(symbol) => symbol@,
                None => seq![],
            },
            bids,
            asks,
            mid: midway(bids, asks),
        }
    }
}

impl ApiCandle {
    /// The bar that a reply describes; none without its time and four prices.
    pub open spec fn bar(self) -> Option<Candle> {
        match (self.time, self.open, self.high, self.low, self.close) {
            (Some(time_ms), Some(open), Some(high), Some(low), Some(close)) => Some(
                Candle {
                    time_ms,
                    open,
                    high,
                    low,
                    close,
                    volume: or_zero(self.volume),
                    volume_quote: self.volume_quote,
                    trade_count: self.trade_count,
                },
            ),
            _ => None,
        }
    }
}

fn zero_if_none(x: Option<Double>) -> (result: Double)
    ensures
        result == or_zero(x),
{
    match x {
        Some(x) => x,
        None => Double { bits: 0 },
    }
}

pub fn lots_to_base(raw: Option<&str>, decimals: u32) -> (result: Option<Double>)
    ensures
        result == base_amount(header_chars(raw), decimals),
{
    match raw {
        Some(raw) => {
            let chars: Vec<char> = text::chars_of(raw);
            match Double::parse(chars.as_slice()) {
                Some(lots) => {
                    let one: Double = Double { bits: ONE_BITS };
                    let ten: Double = Double { bits: TEN_BITS };
                    let scale: Double = if decimals < 0x8000_0000 {
                        ten.power(decimals)
                    } else {
                        one.over(ten.power((0x1_0000_0000 - decimals as u64) as u32))
                    };
                    Some(lots.over(scale))
                },
                None => None,
            }
        },
        None => None,
    }
}

pub fn levels_from_pairs(pairs: Vec<[Double; 2]>) -> (levels: Vec<BookLevel>)
    ensures
        levels@ == levels_of(pairs@),
{
    let ghost f = |pair: [Double; 2]| level_of(pair);
    let mut levels: Vec<BookLevel> = Vec::new();
    let mut i: usize = 0;
    while i < pairs.len()
        invariant
            i <= pairs.len(),
            f == (|pair: [Double; 2]| level_of(pair)),
            levels@ == kept(pairs@.take(i as int), f),
        decreases pairs.len() - i,
    {
        proof {
            lemma_kept_step(pairs@, f, i as int);
        }
        let price: Double = pairs[i][0];
        let size: Double = pairs[i][1];
        if price.is_finite() && size.is_finite() && size.is_positive() {
            levels.push(BookLevel { price, size });
        }
        i = i + 1;
    }
    assert(pairs@.take(pairs@.len() as int) == pairs@);
    levels
}

impl MarketListing {
    pub fn from_api(market: ApiMarket) -> (listing: MarketListing)
        ensures
            listing@ == market.listing(),
    {
        let decimals: u32 = match market.base_lots_decimals {
            Some(decimals) => decimals,
            None => 0,
        };
        let lots: Option<&str> = match &market.stats_snapshot {
            Some(stats) => match &stats.open_interest_base_lots {
                Some(lots) => Some(lots.as_str()),
                None => None,
            },
            None => None,
        };
        let open_interest: Double = zero_if_none(lots_to_base(lots, decimals));
        let max_leverage: Double = if market.leverage_tiers.len() > 0 {
            zero_if_none(market.leverage_tiers[0].max_leverage)
        } else {
            Double { bits: 0 }
        };
        let is_commodity: bool = match &market.commodity_metadata {
            Some(value) => match value.get("isCommodity") {
                Some(flag) => match flag.as_bool() {
                    Some(flag) => flag,
                    None => false,
                },
                None => false,
            },
            None => false,
        };
        proof {
            reveal_strlit("");
        }
        let name: String = match &market.metadata {
            Some(metadata) => match &metadata.name {
                Some(name) => if !text::text_equal(name.as_str(), "") {
                    name.clone()
                } else {
                    market.symbol.clone()
                },
                None => market.symbol.clone(),
            },
            None => market.symbol.clone(),
        };
        assert(name@ == market.shown_name()) by {
            if let Some(metadata) = market.metadata {
                if let Some(given) = metadata.name {
                    assert(given@.len() == 0 ==> given@ =~= ""@);
                }
            }
        }
        MarketListing {
            symbol: market.symbol,
            name,
            status: match market.market_status {
                Some(status) => status,
                None => "unknown".to_owned(),
            },
            isolated_only: match market.isolated_only {
                Some(flag) => flag,
                None => false,
            },
            max_leverage,
            taker_fee: zero_if_none(market.taker_fee),
            maker_fee: zero_if_none(market.maker_fee),
            base_lots_decimals: decimals,
            open_interest,
            is_commodity,
            mark: None,
        }
    }
}

impl OrderBook {
    pub fn from_api(raw: ApiOrderbook) -> (book: OrderBook)
        ensures
            book@ == raw.book(),
    {
        let bids: Vec<BookLevel> = levels_from_pairs(raw.bids);
        let asks: Vec<BookLevel> = levels_from_pairs(raw.asks);
        let mid: Option<Double> = mid_from_levels(&bids, &asks);
        OrderBook {
            symbol: match raw.symbol {
                Some(symbol) => symbol,
                None => String::new(),
            },
            bids,
            asks,
            mid,
        }
    }
}

impl Candle {
    pub fn from_api(raw: ApiCandle) -> (result: Option<Candle>)
        ensures
            result == raw.bar(),
    {
        match (raw.time, raw.open, raw.high, raw.low, raw.close) {
            (Some(time_ms), Some(open), Some(high), Some(low), Some(close)) => Some(
                Candle {
                    time_ms,
                    open,
                    high,
                    low,
                    close,
                    volume: zero_if_none(raw.volume),
                    volume_quote: raw.volume_quote,
                    trade_count: raw.trade_count,
                },
            ),
            _ => None,
        }
    }
}

/// The listings of a reply, in its order.
pub fn listings_from_api(markets: Vec<ApiMarket>) -> (listings: Vec<MarketListing>)
    ensures
        listings@.len() == markets@.len(),
        forall|i: int| 0 <= i < markets@.len() ==> (#[trigger] listings@[i])@ == markets@[i].listing(),
{
    let ghost all = markets@;
    let mut listings: Vec<MarketListing> = Vec::new();
    for market in it: markets
        invariant
            it.seq() == all,
            listings@.len() == it.index(),
            forall|i: int| 0 <= i < listings@.len() ==> (#[trigger] listings@[i])@ == all[i].listing(),
    {
        listings.push(MarketListing::from_api(market));
    }
    listings
}

/// The bars of a reply, in its order, without those that lack a part.
pub fn candles_from_api(raw: Vec<ApiCandle>) -> (candles: Vec<Candle>)
    ensures
        candles@ == kept(raw@, |candle: ApiCandle| candle.bar()),
{
    let ghost all = raw@;
    let ghost f = |candle: ApiCandle| candle.bar();
    let mut candles: Vec<Candle> = Vec::new();
    for item in it: raw
        invariant
            it.seq() == all,
            f == (|candle: ApiCandle| candle.bar()),
            candles@ == kept(all.take(it.index()), f),
    {
        proof {
            lemma_kept_step(all, f, it.index());
        }
        if let Some(candle) = Candle::from_api(item) {
            candles.push(candle);
        }
    }
    assert(all.take(all.len() as int) == all);
    candles
}

/// The symbol to ask for: the given one without the spaces around it, which must
/// leave something.
pub fn live_symbol(symbol: &str) -> (result: Result<String, RestError>)
    ensures
        match result {
            Ok(trimmed) => text::trimmed(symbol@).len() > 0 && trimmed@ == text::trimmed(symbol@),
            Err(error) => text::trimmed(symbol@).len() == 0 && error@ == Refusal::Failed(
                "market symbol is empty"@,
            ),
        },
{
    let chars: Vec<char> = text::trim(symbol);
    if chars.len() == 0 {
        Err(RestError::Failed("market symbol is empty".to_owned()))
    } else {
        Ok(text::text_of(chars.as_slice()))
    }
}

impl Quote {
    /// A quote with a book: the book's middle is its mark.
    pub open spec fn with_book(self, book: Option<Book>) -> Quote {
        match book {
            Some(book) => Quote { mark: book.mid, book, ..self },
            None => self,
        }
    }
}

/// The quote of a listing and of a book, where there is one.
pub fn load_live(listing: MarketListing, book: Result<OrderBook, RestError>, now: u64) -> (quote:
    LiveQuote)
    ensures
        quote@ == listing@.quote(now).with_book(
            match book {
                Ok(book) => Some(book@),
                Err(_) => None,
            },
        ),
{
    let mut quote: LiveQuote = LiveQuote::from_listing(listing, now);
    if let Ok(book) = book {
        quote.mark = book.mid;
        quote.book = book;
    }
    quote
}

/// The desk of a quote and of bars, where there are some.
pub fn load_desk(
    live: LiveQuote,
    timeframe: Timeframe,
    candles: Result<Vec<Candle>, RestError>,
) -> (snapshot: DeskSnapshot)
    ensures
        snapshot@ == live@.snapshot(
            timeframe,
            match candles {
                Ok(candles) => candles@,
                Err(_) => Seq::empty(),
            },
        ),
{
    let bars: Vec<Candle> = match candles {
        Ok(candles) => candles,
        Err(_) => Vec::new(),
    };
    desk_from_live(live, timeframe, bars)
}

/// The exchange is never left alone for less than a second, nor for more than a
/// minute.
pub proof fn pause_is_bounded(header: Option<Seq<char>>)
    ensures
        1 <= header_pause(header) <= LONGEST_RETRY_AFTER,
{
}

/// Every level of a book has finite numbers and a size greater than zero, and
/// stands in the reply.
pub proof fn levels_are_sound(pairs: Seq<[Double; 2]>, i: int)
    requires
        0 <= i < levels_of(pairs).len(),
    ensures
        ({
            let level = levels_of(pairs)[i];
            &&& level.price.finite()
            &&& level.size.finite()
            &&& level.size.positive()
            &&& exists|k: int|
                0 <= k < pairs.len() && (#[trigger] pairs[k])@[0] == level.price && pairs[k]@[1]
                    == level.size
        }),
    decreases pairs.len(),
{
    if pairs.len() > 0 {
        let front = pairs.drop_last();
        let level = levels_of(pairs)[i];
        if i < levels_of(front).len() {
            levels_are_sound(front, i);
            let k = choose|k: int|
                0 <= k < front.len() && (#[trigger] front[k])@[0] == level.price && front[k]@[1]
                    == level.size;
            assert(pairs[k] == front[k]);
        } else {
            assert(level_of(pairs[pairs.len() - 1]) == Some(level));
        }
    }
}

} // verus!
