//! Market data: listings, books, bars, trades, the live quote and what the desk
//! shows of it.

use crate::double::Double;
use crate::lists::{copied, either, first};
use crate::text::text_of;
use crate::timeframe::Timeframe;
use std::sync::Arc;
use vstd::prelude::*;

pub mod laws;

verus! {

pub const DEFAULT_API_URL: &'static str = "https://perp-api.phoenix.trade";

pub const DEFAULT_SYMBOL: &'static str = "SOL";

/// The distance from one to the next larger number.
pub const EPSILON: u64 = 0x3cb0_0000_0000_0000;

pub const HUNDRED: u64 = 0x4059_0000_0000_0000;

/// A market as the exchange lists it.
#[derive(Debug)]
pub struct MarketListing {
    pub symbol: String,
    pub name: String,
    pub status: String,
    pub isolated_only: bool,
    pub max_leverage: Double,
    pub taker_fee: Double,
    pub maker_fee: Double,
    pub base_lots_decimals: u32,
    pub open_interest: Double,
    pub is_commodity: bool,
    pub mark: Option<Double>,
}

/// What a listing says.
#[verifier::ext_equal]
pub struct Listing {
    pub symbol: Seq<char>,
    pub name: Seq<char>,
    pub status: Seq<char>,
    pub isolated_only: bool,
    pub max_leverage: Double,
    pub taker_fee: Double,
    pub maker_fee: Double,
    pub base_lots_decimals: u32,
    pub open_interest: Double,
    pub is_commodity: bool,
    pub mark: Option<Double>,
}

impl View for MarketListing {
    type V = Listing;

    open spec fn view(&self) -> Listing {
        Listing {
            symbol: self.symbol@,
            name: self.name@,
            status: self.status@,
            isolated_only: self.isolated_only,
            max_leverage: self.max_leverage,
            taker_fee: self.taker_fee,
            maker_fee: self.maker_fee,
            base_lots_decimals: self.base_lots_decimals,
            open_interest: self.open_interest,
            is_commodity: self.is_commodity,
            mark: self.mark,
        }
    }
}

impl Clone for MarketListing {
    fn clone(&self) -> (result: MarketListing)
        ensures
            result@ == self@,
    {
        MarketListing {
            symbol: self.symbol.clone(),
            name: self.name.clone(),
            status: self.status.clone(),
            isolated_only: self.isolated_only,
            max_leverage: self.max_leverage,
            taker_fee: self.taker_fee,
            maker_fee: self.maker_fee,
            base_lots_decimals: self.base_lots_decimals,
            open_interest: self.open_interest,
            is_commodity: self.is_commodity,
            mark: self.mark,
        }
    }
}

#[derive(Clone, Copy, Debug)]
pub struct BookLevel {
    pub price: Double,
    pub size: Double,
}

/// The two sides of a market, the best price of each first.
#[derive(Debug)]
pub struct OrderBook {
    pub symbol: String,
    pub bids: Vec<BookLevel>,
    pub asks: Vec<BookLevel>,
    pub mid: Option<Double>,
}

/// What a book says.
#[verifier::ext_equal]
pub struct Book {
    pub symbol: Seq<char>,
    pub bids: Seq<BookLevel>,
    pub asks: Seq<BookLevel>,
    pub mid: Option<Double>,
}

impl View for OrderBook {
    type V = Book;

    open spec fn view(&self) -> Book {
        Book { symbol: self.symbol@, bids: self.bids@, asks: self.asks@, mid: self.mid }
    }
}

impl Clone for OrderBook {
    fn clone(&self) -> (result: OrderBook)
        ensures
            result@ == self@,
    {
        OrderBook {
            symbol: self.symbol.clone(),
            bids: copied(&self.bids),
            asks: copied(&self.asks),
            mid: self.mid,
        }
    }
}

/// One bar of a chart.
#[derive(Clone, Copy, Debug)]
pub struct Candle {
    pub time_ms: i64,
    pub open: Double,
    pub high: Double,
    pub low: Double,
    pub close: Double,
    pub volume: Double,
    pub volume_quote: Option<Double>,
    pub trade_count: Option<u32>,
}

/// Both are absent, or both are there and the same number.
pub open spec fn same_option(a: Option<Double>, b: Option<Double>) -> bool {
    match (a, b) {
        (Some(a), Some(b)) => a.same(b),
        (None, None) => true,
        _ => false,
    }
}

impl PartialEq for Candle {
    fn eq(&self, other: &Candle) -> (answer: bool) {
        let quotes: bool = match (self.volume_quote, other.volume_quote) {
            (Some(a), Some(b)) => a.is_same(b),
            (None, None) => true,
            _ => false,
        };
        let counts: bool = match (self.trade_count, other.trade_count) {
            (Some(a), Some(b)) => a == b,
            (None, None) => true,
            _ => false,
        };
        self.time_ms == other.time_ms && self.open.is_same(other.open) && self.high.is_same(
            other.high,
        ) && self.low.is_same(other.low) && self.close.is_same(other.close) && self.volume.is_same(
            other.volume,
        ) && quotes && counts
    }
}

impl vstd::std_specs::cmp::PartialEqSpecImpl for Candle {
    open spec fn obeys_eq_spec() -> bool {
        true
    }

    open spec fn eq_spec(&self, other: &Candle) -> bool {
        &&& self.time_ms == other.time_ms
        &&& self.open.same(other.open)
        &&& self.high.same(other.high)
        &&& self.low.same(other.low)
        &&& self.close.same(other.close)
        &&& self.volume.same(other.volume)
        &&& same_option(self.volume_quote, other.volume_quote)
        &&& self.trade_count == other.trade_count
    }
}

#[derive(Debug)]
pub struct Trade {
    pub price: Double,
    pub size: Double,
    pub notional: Option<Double>,
    pub is_buy: bool,
    pub timestamp: String,
}

/// What a trade says.
#[verifier::ext_equal]
pub struct Deal {
    pub price: Double,
    pub size: Double,
    pub notional: Option<Double>,
    pub is_buy: bool,
    pub timestamp: Seq<char>,
}

impl View for Trade {
    type V = Deal;

    open spec fn view(&self) -> Deal {
        Deal {
            price: self.price,
            size: self.size,
            notional: self.notional,
            is_buy: self.is_buy,
            timestamp: self.timestamp@,
        }
    }
}

impl Clone for Trade {
    fn clone(&self) -> (result: Trade)
        ensures
            result@ == self@,
    {
        Trade {
            price: self.price,
            size: self.size,
            notional: self.notional,
            is_buy: self.is_buy,
            timestamp: self.timestamp.clone(),
        }
    }
}

/// What trades say, one by one.
pub open spec fn deals(trades: Seq<Trade>) -> Seq<Deal> {
    Seq::new(trades.len(), |i: int| trades[i]@)
}

/// What listings say, one by one.
pub open spec fn listings_view(markets: Seq<MarketListing>) -> Seq<Listing> {
    Seq::new(markets.len(), |i: int| markets[i]@)
}

pub fn cloned_trades(trades: &Vec<Trade>) -> (result: Vec<Trade>)
    ensures
        deals(result@) == deals(trades@),
{
    let mut result: Vec<Trade> = Vec::new();
    let mut i: usize = 0;
    while i < trades.len()
        invariant
            i <= trades.len(),
            result.len() == i,
            forall|j: int| 0 <= j < i ==> (#[trigger] result@[j])@ == trades@[j]@,
        decreases trades.len() - i,
    {
        result.push(trades[i].clone());
        i = i + 1;
    }
    result
}

pub fn cloned_listings(markets: &Vec<MarketListing>) -> (result: Vec<MarketListing>)
    ensures
        listings_view(result@) == listings_view(markets@),
{
    let mut result: Vec<MarketListing> = Vec::new();
    let mut i: usize = 0;
    while i < markets.len()
        invariant
            i <= markets.len(),
            result.len() == i,
            forall|j: int| 0 <= j < i ==> (#[trigger] result@[j])@ == markets@[j]@,
        decreases markets.len() - i,
    {
        result.push(markets[i].clone());
        i = i + 1;
    }
    result
}

/// What is known of a market from moment to moment. `fetched_at` counts
/// nanoseconds on the clock of whoever fills it.
#[derive(Debug)]
pub struct LiveQuote {
    pub listing: MarketListing,
    pub mark: Option<Double>,
    pub index: Option<Double>,
    pub mid: Option<Double>,
    pub prev_day: Option<Double>,
    pub book: OrderBook,
    pub trades: Vec<Trade>,
    pub funding_pct: Option<Double>,
    pub open_interest: Option<Double>,
    pub volume_24h: Option<Double>,
    pub change_24h_pct: Option<Double>,
    pub fetched_at: u64,
}

/// What a quote says.
#[verifier::ext_equal]
pub struct Quote {
    pub listing: Listing,
    pub mark: Option<Double>,
    pub index: Option<Double>,
    pub mid: Option<Double>,
    pub prev_day: Option<Double>,
    pub book: Book,
    pub trades: Seq<Deal>,
    pub funding_pct: Option<Double>,
    pub open_interest: Option<Double>,
    pub volume_24h: Option<Double>,
    pub change_24h_pct: Option<Double>,
    pub fetched_at: u64,
}

impl View for LiveQuote {
    type V = Quote;

    open spec fn view(&self) -> Quote {
        Quote {
            listing: self.listing@,
            mark: self.mark,
            index: self.index,
            mid: self.mid,
            prev_day: self.prev_day,
            book: self.book@,
            trades: deals(self.trades@),
            funding_pct: self.funding_pct,
            open_interest: self.open_interest,
            volume_24h: self.volume_24h,
            change_24h_pct: self.change_24h_pct,
            fetched_at: self.fetched_at,
        }
    }
}

impl Clone for LiveQuote {
    fn clone(&self) -> (result: LiveQuote)
        ensures
            result@ == self@,
    {
        LiveQuote {
            listing: self.listing.clone(),
            mark: self.mark,
            index: self.index,
            mid: self.mid,
            prev_day: self.prev_day,
            book: self.book.clone(),
            trades: cloned_trades(&self.trades),
            funding_pct: self.funding_pct,
            open_interest: self.open_interest,
            volume_24h: self.volume_24h,
            change_24h_pct: self.change_24h_pct,
            fetched_at: self.fetched_at,
        }
    }
}

/// What the desk shows of a market.
#[derive(Debug)]
pub struct DeskSnapshot {
    pub symbol: String,
    pub timeframe: Timeframe,
    pub name: String,
    pub status: String,
    pub mark: Option<Double>,
    pub index: Option<Double>,
    pub mid: Option<Double>,
    pub prev_day: Option<Double>,
    pub best_bid: Option<Double>,
    pub best_ask: Option<Double>,
    pub change_24h: Option<Double>,
    pub change_24h_pct: Option<Double>,
    pub volume_24h: Option<Double>,
    pub open_interest: Option<Double>,
    pub funding_pct: Option<Double>,
    pub max_leverage: Option<Double>,
    pub taker_fee: Option<Double>,
    pub isolated_only: bool,
    pub book: OrderBook,
    pub candles: Arc<Vec<Candle>>,
    pub trades: Vec<Trade>,
    pub fetched_at: u64,
}

/// What a snapshot says.
#[verifier::ext_equal]
pub struct Snapshot {
    pub symbol: Seq<char>,
    pub timeframe: Timeframe,
    pub name: Seq<char>,
    pub status: Seq<char>,
    pub mark: Option<Double>,
    pub index: Option<Double>,
    pub mid: Option<Double>,
    pub prev_day: Option<Double>,
    pub best_bid: Option<Double>,
    pub best_ask: Option<Double>,
    pub change_24h: Option<Double>,
    pub change_24h_pct: Option<Double>,
    pub volume_24h: Option<Double>,
    pub open_interest: Option<Double>,
    pub funding_pct: Option<Double>,
    pub max_leverage: Option<Double>,
    pub taker_fee: Option<Double>,
    pub isolated_only: bool,
    pub book: Book,
    pub candles: Seq<Candle>,
    pub trades: Seq<Deal>,
    pub fetched_at: u64,
}

impl View for DeskSnapshot {
    type V = Snapshot;

    open spec fn view(&self) -> Snapshot {
        Snapshot {
            symbol: self.symbol@,
            timeframe: self.timeframe,
            name: self.name@,
            status: self.status@,
            mark: self.mark,
            index: self.index,
            mid: self.mid,
            prev_day: self.prev_day,
            best_bid: self.best_bid,
            best_ask: self.best_ask,
            change_24h: self.change_24h,
            change_24h_pct: self.change_24h_pct,
            volume_24h: self.volume_24h,
            open_interest: self.open_interest,
            funding_pct: self.funding_pct,
            max_leverage: self.max_leverage,
            taker_fee: self.taker_fee,
            isolated_only: self.isolated_only,
            book: self.book@,
            candles: (*self.candles)@,
            trades: deals(self.trades@),
            fetched_at: self.fetched_at,
        }
    }
}

impl Clone for DeskSnapshot {
    fn clone(&self) -> (result: DeskSnapshot)
        ensures
            result@ == self@,
    {
        DeskSnapshot {
            symbol: self.symbol.clone(),
            timeframe: self.timeframe,
            name: self.name.clone(),
            status: self.status.clone(),
            mark: self.mark,
            index: self.index,
            mid: self.mid,
            prev_day: self.prev_day,
            best_bid: self.best_bid,
            best_ask: self.best_ask,
            change_24h: self.change_24h,
            change_24h_pct: self.change_24h_pct,
            volume_24h: self.volume_24h,
            open_interest: self.open_interest,
            funding_pct: self.funding_pct,
            max_leverage: self.max_leverage,
            taker_fee: self.taker_fee,
            isolated_only: self.isolated_only,
            book: self.book.clone(),
            candles: self.candles.clone(),
            trades: cloned_trades(&self.trades),
            fetched_at: self.fetched_at,
        }
    }
}

/// `(to - from) / from`, in percent.
pub open spec fn percent(from: Double, to: Double) -> Double {
    to.difference(from).quotient(from).product(Double { bits: HUNDRED })
}

/// The change from the day before, in percent, unless that day's price is next
/// to nothing.
pub open spec fn percent_since(prev: Option<Double>, price: Option<Double>) -> Option<Double> {
    match (price, prev) {
        (Some(price), Some(prev)) if (Double { bits: EPSILON }).below(prev.absolute()) => Some(
            percent(prev, price),
        ),
        _ => None,
    }
}

/// The change from the first bar's open to the last bar's close, in percent,
/// unless that open is next to nothing.
pub open spec fn candles_change(candles: Seq<Candle>) -> Option<Double> {
    if candles.len() == 0 || candles[0].open.absolute().below(Double { bits: EPSILON }) {
        None
    } else {
        Some(percent(candles[0].open, candles.last().close))
    }
}

/// A number, if it is greater than zero.
pub open spec fn if_positive(x: Double) -> Option<Double> {
    if x.positive() {
        Some(x)
    } else {
        None
    }
}

/// The price of a side's best level.
pub open spec fn best(levels: Seq<BookLevel>) -> Option<Double> {
    if levels.len() > 0 {
        Some(levels[0].price)
    } else {
        None
    }
}

/// The price midway between the best of each side; the best of the only side
/// where one is empty.
pub open spec fn midway(bids: Seq<BookLevel>, asks: Seq<BookLevel>) -> Option<Double> {
    match (best(bids), best(asks)) {
        (Some(bid), Some(ask)) => Some(bid.sum(ask).quotient(Double { bits: TWO })),
        (Some(bid), None) => Some(bid),
        (None, ask) => ask,
    }
}

pub const TWO: u64 = 0x4000_0000_0000_0000;

impl Quote {
    /// The price that the desk goes by: the mark, else the mid, else the book's.
    pub open spec fn shown_mark(self) -> Option<Double> {
        either(either(self.mark, self.mid), self.book.mid)
    }

    /// What the desk shows of a quote with some bars.
    pub open spec fn snapshot(self, timeframe: Timeframe, candles: Seq<Candle>) -> Snapshot {
        Snapshot {
            symbol: self.listing.symbol,
            timeframe,
            name: self.listing.name,
            status: self.listing.status,
            mark: self.shown_mark(),
            index: self.index,
            mid: either(self.mid, self.book.mid),
            prev_day: self.prev_day,
            best_bid: best(self.book.bids),
            best_ask: best(self.book.asks),
            change_24h: match (self.shown_mark(), self.prev_day) {
                (Some(mark), Some(prev)) => Some(mark.difference(prev)),
                _ => None,
            },
            change_24h_pct: either(
                either(self.change_24h_pct, percent_since(self.prev_day, self.shown_mark())),
                candles_change(candles),
            ),
            volume_24h: self.volume_24h,
            open_interest: either(self.open_interest, if_positive(self.listing.open_interest)),
            funding_pct: self.funding_pct,
            max_leverage: if_positive(self.listing.max_leverage),
            taker_fee: Some(self.listing.taker_fee),
            isolated_only: self.listing.isolated_only,
            book: self.book,
            candles,
            trades: self.trades,
            fetched_at: self.fetched_at,
        }
    }
}

impl Listing {
    /// A market of which only the symbol is known.
    pub open spec fn placeholder(symbol: Seq<char>) -> Listing {
        let none = Double { bits: 0 };
        Listing {
            symbol,
            name: symbol + "-PERP"@,
            status: "unknown"@,
            isolated_only: false,
            max_leverage: none,
            taker_fee: none,
            maker_fee: none,
            base_lots_decimals: 0,
            open_interest: none,
            is_commodity: false,
            mark: None,
        }
    }

    /// A quote that knows nothing but the listing.
    pub open spec fn quote(self, now: u64) -> Quote {
        Quote {
            listing: self,
            mark: None,
            index: None,
            mid: None,
            prev_day: None,
            book: Book { symbol: self.symbol, bids: seq![], asks: seq![], mid: None },
            trades: seq![],
            funding_pct: None,
            open_interest: None,
            volume_24h: None,
            change_24h_pct: None,
            fetched_at: now,
        }
    }
}

fn percent_of(from: Double, to: Double) -> (result: Double)
    ensures
        result == percent(from, to),
{
    to.minus(from).over(from).times(Double { bits: HUNDRED })
}

pub fn percent_change(prev: Option<Double>, price: Option<Double>) -> (result: Option<Double>)
    ensures
        result == percent_since(prev, price),
{
    match (price, prev) {
        (Some(price), Some(prev)) => if (Double { bits: EPSILON }).is_below(prev.abs()) {
            Some(percent_of(prev, price))
        } else {
            None
        },
        _ => None,
    }
}

pub fn percent_change_from_candles(candles: &[Candle]) -> (result: Option<Double>)
    ensures
        result == candles_change(candles@),
{
    if candles.len() == 0 || candles[0].open.abs().is_below(Double { bits: EPSILON }) {
        None
    } else {
        Some(percent_of(candles[0].open, candles[candles.len() - 1].close))
    }
}

fn positive(x: Double) -> (result: Option<Double>)
    ensures
        result == if_positive(x),
{
    if x.is_positive() {
        Some(x)
    } else {
        None
    }
}

fn best_price(levels: &Vec<BookLevel>) -> (result: Option<Double>)
    ensures
        result == best(levels@),
{
    if levels.len() > 0 {
        Some(levels[0].price)
    } else {
        None
    }
}

pub fn mid_from_levels(bids: &Vec<BookLevel>, asks: &Vec<BookLevel>) -> (result: Option<Double>)
    ensures
        result == midway(bids@, asks@),
{
    match (best_price(bids), best_price(asks)) {
        (Some(bid), Some(ask)) => Some(bid.plus(ask).over(Double { bits: TWO })),
        (Some(bid), None) => Some(bid),
        (None, ask) => ask,
    }
}

pub fn desk_from_live(live: LiveQuote, timeframe: Timeframe, candles: Vec<Candle>) -> (snapshot:
    DeskSnapshot)
    ensures
        snapshot@ == live@.snapshot(timeframe, candles@),
{
    let mark: Option<Double> = first(first(live.mark, live.mid), live.book.mid);
    let prev_day: Option<Double> = live.prev_day;
    let change_24h: Option<Double> = match (mark, prev_day) {
        (Some(mark), Some(prev)) => Some(mark.minus(prev)),
        _ => None,
    };
    let change_24h_pct: Option<Double> = first(
        first(live.change_24h_pct, percent_change(prev_day, mark)),
        percent_change_from_candles(candles.as_slice()),
    );
    DeskSnapshot {
        symbol: live.listing.symbol,
        timeframe,
        name: live.listing.name,
        status: live.listing.status,
        mark,
        index: live.index,
        mid: first(live.mid, live.book.mid),
        prev_day,
        best_bid: best_price(&live.book.bids),
        best_ask: best_price(&live.book.asks),
        change_24h,
        change_24h_pct,
        volume_24h: live.volume_24h,
        open_interest: first(live.open_interest, positive(live.listing.open_interest)),
        funding_pct: live.funding_pct,
        max_leverage: positive(live.listing.max_leverage),
        taker_fee: Some(live.listing.taker_fee),
        isolated_only: live.listing.isolated_only,
        book: live.book,
        candles: Arc::new(candles),
        trades: live.trades,
        fetched_at: live.fetched_at,
    }
}

impl MarketListing {
    pub fn placeholder(symbol: &str) -> (listing: MarketListing)
        ensures
            listing@ == Listing::placeholder(symbol@),
    {
        let none: Double = Double { bits: 0 };
        let mut name: Vec<char> = Vec::new();
        crate::text::push_text(&mut name, symbol);
        crate::text::push_text(&mut name, "-PERP");
        MarketListing {
            symbol: symbol.to_owned(),
            name: text_of(name.as_slice()),
            status: "unknown".to_owned(),
            isolated_only: false,
            max_leverage: none,
            taker_fee: none,
            maker_fee: none,
            base_lots_decimals: 0,
            open_interest: none,
            is_commodity: false,
            mark: None,
        }
    }
}

impl LiveQuote {
    pub fn from_listing(listing: MarketListing, now: u64) -> (quote: LiveQuote)
        ensures
            quote@ == listing@.quote(now),
    {
        let symbol: String = listing.symbol.clone();
        LiveQuote {
            listing,
            mark: None,
            index: None,
            mid: None,
            prev_day: None,
            book: OrderBook { symbol, bids: Vec::new(), asks: Vec::new(), mid: None },
            trades: Vec::new(),
            funding_pct: None,
            open_interest: None,
            volume_24h: None,
            change_24h_pct: None,
            fetched_at: now,
        }
    }
}

} // verus!
