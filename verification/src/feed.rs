//! The feed: what the messages of the stream and the replies of the exchange
//! change of the quote, the listings and the bars.

use crate::double::Double;
use crate::lists::{copied, either, first, lemma_placed_at, sorted};
use crate::market::{
    deals, listings_view, Candle, Deal, DeskSnapshot, Listing, LiveQuote, MarketListing, Quote,
    Snapshot, Trade,
};
use crate::text;
use crate::text::text_equal;
use crate::timeframe::Timeframe;
use crate::ws::MarketTick;
use vstd::prelude::*;

pub mod effects;
pub mod laws;
pub mod machine;

verus! {

/// How many trades a quote keeps.
pub const TRADE_LIMIT: usize = 40;

/// What the desk asks of the feed.
#[derive(Debug)]
pub enum FeedCommand {
    Select { symbol: String, timeframe: Timeframe },
    Shutdown,
}

/// What the feed tells the desk.
#[derive(Debug)]
pub enum FeedEvent {
    Markets(Vec<MarketListing>),
    Desk(Box<DeskSnapshot>),
    Error(String),
}

/// What an event says.
#[verifier::ext_equal]
pub enum Event {
    Markets(Seq<Listing>),
    Desk(Snapshot),
    Error(Seq<char>),
}

impl View for FeedEvent {
    type V = Event;

    open spec fn view(&self) -> Event {
        match self {
            FeedEvent::Markets(markets) => Event::Markets(listings_view(markets@)),
            FeedEvent::Desk(snapshot) => Event::Desk((**snapshot)@),
            FeedEvent::Error(error) => Event::Error(error@),
        }
    }
}

/// The bars of a market in one width.
#[derive(Debug)]
pub struct Series {
    pub symbol: String,
    pub timeframe: Timeframe,
    pub candles: Vec<Candle>,
}

/// What a series says.
#[verifier::ext_equal]
pub struct Bars {
    pub symbol: Seq<char>,
    pub timeframe: Timeframe,
    pub candles: Seq<Candle>,
}

impl View for Series {
    type V = Bars;

    open spec fn view(&self) -> Bars {
        Bars { symbol: self.symbol@, timeframe: self.timeframe, candles: self.candles@ }
    }
}

pub open spec fn series_view(series: Seq<Series>) -> Seq<Bars> {
    Seq::new(series.len(), |i: int| series[i]@)
}

/// The place of a market in the markets' list: three come first.
pub open spec fn rank(symbol: Seq<char>) -> int {
    if symbol == "SOL"@ {
        0
    } else if symbol == "BTC"@ {
        1
    } else if symbol == "ETH"@ {
        2
    } else {
        10
    }
}

/// The order of the markets' list: by rank, then by symbol.
pub open spec fn listed_before() -> spec_fn(Listing, Listing) -> bool {
    |a: Listing, b: Listing|
        rank(a.symbol) < rank(b.symbol) || rank(a.symbol) == rank(b.symbol) && text::precedes(
            a.symbol,
            b.symbol,
        )
}

/// The place of a market's listing; the number of listings where it has none.
pub open spec fn listing_place(listings: Seq<Listing>, symbol: Seq<char>) -> int
    decreases listings.len(),
{
    if listings.len() == 0 {
        0
    } else if listings[0].symbol == symbol {
        0
    } else {
        1 + listing_place(listings.drop_first(), symbol)
    }
}

/// The listing of a market.
pub open spec fn listing_of(listings: Seq<Listing>, symbol: Seq<char>) -> Option<Listing> {
    let at = listing_place(listings, symbol);
    if at < listings.len() {
        Some(listings[at])
    } else {
        None
    }
}

/// The listings with one in the place of its market's, or added.
pub open spec fn listed(listings: Seq<Listing>, listing: Listing) -> Seq<Listing> {
    let at = listing_place(listings, listing.symbol);
    if at < listings.len() {
        listings.update(at, listing)
    } else {
        listings.push(listing)
    }
}

/// The listings that are made of others, put in one by one.
pub open spec fn listed_all(markets: Seq<Listing>) -> Seq<Listing>
    decreases markets.len(),
{
    if markets.len() == 0 {
        seq![]
    } else {
        listed(listed_all(markets.drop_last()), markets.last())
    }
}

/// The listings with another mark of a market; the same where it has none.
pub open spec fn remarked(listings: Seq<Listing>, symbol: Seq<char>, mark: Double) -> Seq<Listing> {
    let at = listing_place(listings, symbol);
    if at < listings.len() {
        listings.update(at, Listing { mark: Some(mark), ..listings[at] })
    } else {
        listings
    }
}

/// The place of a series; the number of series where there is none.
pub open spec fn series_place(series: Seq<Bars>, symbol: Seq<char>, timeframe: Timeframe) -> int
    decreases series.len(),
{
    if series.len() == 0 {
        0
    } else if series[0].symbol == symbol && series[0].timeframe == timeframe {
        0
    } else {
        1 + series_place(series.drop_first(), symbol, timeframe)
    }
}

/// The bars of a market in one width; none where there is no series.
pub open spec fn bars_of(series: Seq<Bars>, symbol: Seq<char>, timeframe: Timeframe) -> Seq<Candle> {
    let at = series_place(series, symbol, timeframe);
    if at < series.len() {
        series[at].candles
    } else {
        seq![]
    }
}

/// The series with one in the place of its like, or added.
pub open spec fn stored(series: Seq<Bars>, bars: Bars) -> Seq<Bars> {
    let at = series_place(series, bars.symbol, bars.timeframe);
    if at < series.len() {
        series.update(at, bars)
    } else {
        series.push(bars)
    }
}

/// Trades with newer ones in front, as many as are kept.
pub open spec fn prepended(existing: Seq<Deal>, incoming: Seq<Deal>) -> Seq<Deal> {
    let all = incoming + existing;
    if all.len() > TRADE_LIMIT {
        all.take(TRADE_LIMIT as int)
    } else {
        all
    }
}

impl Quote {
    /// The quote after a tick: what the tick does not say stays.
    pub open spec fn ticked(self, tick: MarketTick) -> Quote {
        Quote {
            mark: either(tick.mark, self.mark),
            index: either(tick.index, self.index),
            mid: either(tick.mid, self.mid),
            prev_day: either(tick.prev_day, self.prev_day),
            funding_pct: either(tick.funding_pct, self.funding_pct),
            open_interest: either(tick.open_interest, self.open_interest),
            volume_24h: either(tick.volume_24h, self.volume_24h),
            change_24h_pct: either(tick.change_24h_pct, self.change_24h_pct),
            ..self
        }
    }

    /// The quote after its market's mid.
    pub open spec fn with_mid(self, price: Double) -> Quote {
        Quote { mid: Some(price), mark: either(self.mark, Some(price)), ..self }
    }
}

/// The listings after mids.
pub open spec fn listings_with_mids(listings: Seq<Listing>, mids: Seq<(Seq<char>, Double)>) -> Seq<
    Listing,
>
    decreases mids.len(),
{
    if mids.len() == 0 {
        listings
    } else {
        remarked(
            listings_with_mids(listings, mids.drop_last()),
            mids.last().0,
            mids.last().1,
        )
    }
}

/// The quote of a market after mids.
pub open spec fn quote_with_mids(
    quote: Quote,
    symbol: Seq<char>,
    mids: Seq<(Seq<char>, Double)>,
) -> Quote
    decreases mids.len(),
{
    if mids.len() == 0 {
        quote
    } else {
        let before = quote_with_mids(quote, symbol, mids.drop_last());
        if mids.last().0 == symbol {
            before.with_mid(mids.last().1)
        } else {
            before
        }
    }
}

/// Some mid is of a listed market.
pub open spec fn lists_any(listings: Seq<Listing>, mids: Seq<(Seq<char>, Double)>) -> bool {
    exists|i: int| 0 <= i < mids.len() && listing_of(listings, (#[trigger] mids[i]).0) is Some
}

pub fn market_rank(symbol: &str) -> (result: u8)
    ensures
        result == rank(symbol@),
{
    if text_equal(symbol, "SOL") {
        0
    } else if text_equal(symbol, "BTC") {
        1
    } else if text_equal(symbol, "ETH") {
        2
    } else {
        10
    }
}

fn is_listed_before(left: &MarketListing, right: &MarketListing) -> (answer: bool)
    ensures
        answer == listed_before()(left@, right@),
{
    let a: u8 = market_rank(left.symbol.as_str());
    let b: u8 = market_rank(right.symbol.as_str());
    a < b || a == b && text::text_precedes(left.symbol.as_str(), right.symbol.as_str())
}

/// The listings in the order of the markets' list.
pub fn sort_markets(markets: &Vec<MarketListing>) -> (result: Vec<MarketListing>)
    ensures
        listings_view(result@) == sorted(listings_view(markets@), listed_before()),
{
    let ghost all = listings_view(markets@);
    let ghost order = listed_before();
    let mut result: Vec<MarketListing> = Vec::new();
    let mut i: usize = 0;
    assert(listings_view(result@) == sorted(all.take(0), order));
    while i < markets.len()
        invariant
            i <= markets.len(),
            all == listings_view(markets@),
            order == listed_before(),
            result.len() == i,
            listings_view(result@) == sorted(all.take(i as int), order),
        decreases markets.len() - i,
    {
        let market: MarketListing = markets[i].clone();
        let mut at: usize = result.len();
        while at > 0 && is_listed_before(&market, &result[at - 1])
            invariant
                at <= result.len(),
                order == listed_before(),
                forall|k: int|
                    at <= k < result.len() ==> order(market@, (#[trigger] result@[k])@),
            decreases at,
        {
            at = at - 1;
        }
        proof {
            let shown = listings_view(result@);
            assert forall|k: int| at <= k < shown.len() implies order(
                market@,
                #[trigger] shown[k],
            ) by {
                assert(shown[k] == result@[k]@);
            }
            assert(at > 0 ==> shown[at - 1] == result@[at - 1]@);
            lemma_placed_at(shown, market@, order, at as int);
            assert(all.take(i + 1).drop_last() == all.take(i as int));
            assert(all.take(i + 1).last() == market@);
        }
        let ghost before = result@;
        result.insert(at, market);
        assert(listings_view(result@) == listings_view(before).insert(at as int, market@));
        i = i + 1;
    }
    assert(all.take(all.len() as int) == all);
    result
}

/// The place of a market's listing.
pub fn find_listing(listings: &Vec<MarketListing>, symbol: &str) -> (at: usize)
    ensures
        at == listing_place(listings_view(listings@), symbol@),
        at <= listings@.len(),
{
    let ghost all = listings_view(listings@);
    let mut i: usize = 0;
    assert(all.skip(0) == all);
    while i < listings.len()
        invariant
            i <= listings.len(),
            all == listings_view(listings@),
            listing_place(all, symbol@) == i + listing_place(all.skip(i as int), symbol@),
        decreases listings.len() - i,
    {
        assert(all.skip(i as int)[0] == listings@[i as int]@);
        if text_equal(listings[i].symbol.as_str(), symbol) {
            return i;
        }
        assert(all.skip(i as int).drop_first() == all.skip(i + 1));
        i = i + 1;
    }
    i
}

/// Puts a listing in the place of its market's, or adds it.
pub fn put_listing(listings: &mut Vec<MarketListing>, listing: MarketListing)
    ensures
        listings_view(final(listings)@) == listed(listings_view(old(listings)@), listing@),
{
    let ghost before = listings_view(listings@);
    let at: usize = find_listing(listings, listing.symbol.as_str());
    if at < listings.len() {
        listings.set(at, listing);
        assert(listings_view(listings@) == before.update(at as int, listing@));
    } else {
        listings.push(listing);
        assert(listings_view(listings@) == before.push(listing@));
    }
}

/// The listings that are made of others.
pub fn collect_listings(markets: &Vec<MarketListing>) -> (listings: Vec<MarketListing>)
    ensures
        listings_view(listings@) == listed_all(listings_view(markets@)),
{
    let ghost all = listings_view(markets@);
    let mut listings: Vec<MarketListing> = Vec::new();
    let mut i: usize = 0;
    assert(listings_view(listings@) == listed_all(all.take(0)));
    while i < markets.len()
        invariant
            i <= markets.len(),
            all == listings_view(markets@),
            listings_view(listings@) == listed_all(all.take(i as int)),
        decreases markets.len() - i,
    {
        assert(all.take(i + 1).drop_last() == all.take(i as int));
        assert(all.take(i + 1).last() == markets@[i as int]@);
        put_listing(&mut listings, markets[i].clone());
        i = i + 1;
    }
    assert(all.take(all.len() as int) == all);
    listings
}

/// Sets the mark of a market's listing; says whether it has one.
fn mark_listing(listings: &mut Vec<MarketListing>, symbol: &str, mark: Double) -> (found: bool)
    ensures
        listings_view(final(listings)@) == remarked(listings_view(old(listings)@), symbol@, mark),
        found == (listing_of(listings_view(old(listings)@), symbol@) is Some),
{
    let ghost before = listings_view(listings@);
    let at: usize = find_listing(listings, symbol);
    if at < listings.len() {
        let mut listing: MarketListing = listings[at].clone();
        listing.mark = Some(mark);
        listings.set(at, listing);
        assert(listings_view(listings@) == before.update(at as int, listing@));
        true
    } else {
        false
    }
}

/// The place of a series.
pub fn find_series(series: &Vec<Series>, symbol: &str, timeframe: Timeframe) -> (at: usize)
    ensures
        at == series_place(series_view(series@), symbol@, timeframe),
        at <= series@.len(),
{
    let ghost all = series_view(series@);
    let mut i: usize = 0;
    assert(all.skip(0) == all);
    while i < series.len()
        invariant
            i <= series.len(),
            all == series_view(series@),
            series_place(all, symbol@, timeframe) == i + series_place(
                all.skip(i as int),
                symbol@,
                timeframe,
            ),
        decreases series.len() - i,
    {
        assert(all.skip(i as int)[0] == series@[i as int]@);
        if text_equal(series[i].symbol.as_str(), symbol) && series[i].timeframe == timeframe {
            return i;
        }
        assert(all.skip(i as int).drop_first() == all.skip(i + 1));
        i = i + 1;
    }
    i
}

/// The bars of a market in one width.
pub fn copy_bars(series: &Vec<Series>, symbol: &str, timeframe: Timeframe) -> (candles: Vec<Candle>)
    ensures
        candles@ == bars_of(series_view(series@), symbol@, timeframe),
{
    let at: usize = find_series(series, symbol, timeframe);
    if at < series.len() {
        copied(&series[at].candles)
    } else {
        Vec::new()
    }
}

/// Puts bars in the place of those of their market and width, or adds them.
pub fn put_bars(
    series: &mut Vec<Series>,
    symbol: &str,
    timeframe: Timeframe,
    candles: Vec<Candle>,
)
    ensures
        series_view(final(series)@) == stored(
            series_view(old(series)@),
            Bars { symbol: symbol@, timeframe, candles: candles@ },
        ),
{
    let ghost before = series_view(series@);
    let at: usize = find_series(series, symbol, timeframe);
    let bars: Series = Series { symbol: symbol.to_owned(), timeframe, candles };
    if at < series.len() {
        series.set(at, bars);
        assert(series_view(series@) == before.update(at as int, bars@));
    } else {
        series.push(bars);
        assert(series_view(series@) == before.push(bars@));
    }
}

pub fn apply_tick(quote: &mut LiveQuote, tick: &MarketTick)
    ensures
        final(quote)@ == old(quote)@.ticked(*tick),
{
    quote.mark = first(tick.mark, quote.mark);
    quote.index = first(tick.index, quote.index);
    quote.mid = first(tick.mid, quote.mid);
    quote.prev_day = first(tick.prev_day, quote.prev_day);
    quote.funding_pct = first(tick.funding_pct, quote.funding_pct);
    quote.open_interest = first(tick.open_interest, quote.open_interest);
    quote.volume_24h = first(tick.volume_24h, quote.volume_24h);
    quote.change_24h_pct = first(tick.change_24h_pct, quote.change_24h_pct);
}

pub fn prepend_trades(existing: &mut Vec<Trade>, incoming: Vec<Trade>)
    ensures
        deals(final(existing)@) == prepended(deals(old(existing)@), deals(incoming@)),
{
    let ghost older = existing@;
    let ghost newer = incoming@;
    let mut all: Vec<Trade> = incoming;
    all.append(existing);
    assert(deals(all@) == deals(newer) + deals(older));
    if all.len() > TRADE_LIMIT {
        all.truncate(TRADE_LIMIT);
        assert(deals(all@) == (deals(newer) + deals(older)).take(TRADE_LIMIT as int));
    }
    *existing = all;
}

} // verus!
