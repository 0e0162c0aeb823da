//! What holds of the feed at every step.

use super::machine::{
    default_listings, doubled, elapsed, lemma_listing_place, Answer, Demand, Phase, State,
    LONGEST_BACKOFF, MARKET_REFRESH, POLLS, SHORTEST_BACKOFF,
};
use super::{
    bars_of, listed, listed_all, listed_before, listing_of, listings_with_mids, prepended,
    quote_with_mids, rank, remarked, series_place, stored, Bars, Event, TRADE_LIMIT,
};
use crate::candles::{
    is_series, merge_keeps_series, merge_leaves_some, merged, upsert_keeps_series,
    upsert_leaves_some, upserted,
};
use crate::double::Double;
use crate::lists::{in_order, ranks, sorted, sorting_orders};
use crate::market::{Candle, Deal, Listing, Quote};
use crate::rest::Refusal;
use crate::text;
use crate::timeframe::Timeframe;
use crate::ws::{MarketTick, Message};
use vstd::prelude::*;

verus! {

pub open spec fn no_listing_twice(listings: Seq<Listing>) -> bool {
    forall|i: int, j: int|
        0 <= i < j < listings.len() ==> (#[trigger] listings[i]).symbol != (
        #[trigger] listings[j]).symbol
}

/// No market and width has two series, and none is empty.
pub open spec fn sound_series(series: Seq<Bars>) -> bool {
    &&& forall|i: int| 0 <= i < series.len() ==> (#[trigger] series[i]).candles.len() > 0
    &&& forall|i: int, j: int|
        0 <= i < j < series.len() ==> (#[trigger] series[i]).symbol != (#[trigger] series[j]).symbol
            || series[i].timeframe != series[j].timeframe
}

/// Every series is in time's order and within its limit.
pub open spec fn ordered_series(series: Seq<Bars>) -> bool {
    forall|i: int| 0 <= i < series.len() ==> is_series((#[trigger] series[i]).candles)
}

impl State {
    /// No market is listed twice, the series are sound, the quote is the selected
    /// market's and keeps to its trades' limit, the time between attempts to
    /// connect keeps to its limits, and so does the number of looks at the stream.
    pub open spec fn valid(self) -> bool {
        &&& no_listing_twice(self.listings)
        &&& sound_series(self.series)
        &&& self.live.listing.symbol == self.symbol
        &&& self.live.trades.len() <= TRADE_LIMIT
        &&& SHORTEST_BACKOFF <= self.backoff <= LONGEST_BACKOFF
        &&& self.phase matches Phase::Polling { left, .. } ==> 1 <= left <= POLLS
    }
}

proof fn lemma_series_place(series: Seq<Bars>, symbol: Seq<char>, timeframe: Timeframe)
    ensures
        0 <= series_place(series, symbol, timeframe) <= series.len(),
        ({
            let at = series_place(series, symbol, timeframe);
            at < series.len() ==> series[at].symbol == symbol && series[at].timeframe == timeframe
        }),
        forall|i: int|
            0 <= i < series_place(series, symbol, timeframe) ==> (#[trigger] series[i]).symbol
                != symbol || series[i].timeframe != timeframe,
    decreases series.len(),
{
    if series.len() > 0 && !(series[0].symbol == symbol && series[0].timeframe == timeframe) {
        let rest = series.drop_first();
        lemma_series_place(rest, symbol, timeframe);
        assert forall|i: int| 0 <= i < series_place(series, symbol, timeframe) implies (
        #[trigger] series[i]).symbol != symbol || series[i].timeframe != timeframe by {
            if i > 0 {
                assert(rest[i - 1] == series[i]);
            }
        }
    }
}

/// Keeping bars keeps the series sound, and in order where the bars are.
pub proof fn stored_is_sound(series: Seq<Bars>, bars: Bars)
    requires
        sound_series(series),
        bars.candles.len() > 0,
    ensures
        sound_series(stored(series, bars)),
        ordered_series(series) && is_series(bars.candles) ==> ordered_series(stored(series, bars)),
{
    lemma_series_place(series, bars.symbol, bars.timeframe);
    let after = stored(series, bars);
    let at = series_place(series, bars.symbol, bars.timeframe);
    assert forall|i: int, j: int| 0 <= i < j < after.len() implies (#[trigger] after[i]).symbol != (
    #[trigger] after[j]).symbol || after[i].timeframe != after[j].timeframe by {
        if i < series.len() {
            assert(after[i].symbol == series[i].symbol && after[i].timeframe
                == series[i].timeframe);
        }
        if j < series.len() {
            assert(after[j].symbol == series[j].symbol && after[j].timeframe
                == series[j].timeframe);
        }
    }
    assert forall|i: int| 0 <= i < after.len() implies (#[trigger] after[i]).candles.len() > 0 by {
        if i < series.len() && i != at {
            assert(after[i] == series[i]);
        }
    }
    if ordered_series(series) && is_series(bars.candles) {
        assert forall|i: int| 0 <= i < after.len() implies is_series(
            (#[trigger] after[i]).candles,
        ) by {
            if i < series.len() && i != at {
                assert(after[i] == series[i]);
            }
        }
    }
}

/// What is kept is there, and the bars of any other market or width stay.
pub proof fn stored_bars_are_there(
    series: Seq<Bars>,
    bars: Bars,
    symbol: Seq<char>,
    timeframe: Timeframe,
)
    ensures
        bars_of(stored(series, bars), symbol, timeframe) == if symbol == bars.symbol && timeframe
            == bars.timeframe {
            bars.candles
        } else {
            bars_of(series, symbol, timeframe)
        },
{
    let after = stored(series, bars);
    let at = series_place(series, bars.symbol, bars.timeframe);
    lemma_series_place(series, bars.symbol, bars.timeframe);
    lemma_series_place(series, symbol, timeframe);
    lemma_series_place(after, symbol, timeframe);
    let new = series_place(after, symbol, timeframe);
    let old = series_place(series, symbol, timeframe);
    assert forall|i: int| 0 <= i < series.len() implies (#[trigger] after[i]).symbol
        == series[i].symbol && after[i].timeframe == series[i].timeframe by {}
    if at >= series.len() {
        assert(after[series.len() as int] == bars);
    }
    if new < series.len() {
        assert(after[new].symbol == series[new].symbol);
    }
    if old < series.len() {
        assert(after[old].symbol == series[old].symbol);
    }
}

proof fn lemma_listed(listings: Seq<Listing>, listing: Listing)
    requires
        no_listing_twice(listings),
    ensures
        no_listing_twice(listed(listings, listing)),
{
    lemma_listing_place(listings, listing.symbol);
    let after = listed(listings, listing);
    assert forall|i: int, j: int| 0 <= i < j < after.len() implies (#[trigger] after[i]).symbol != (
    #[trigger] after[j]).symbol by {
        if i < listings.len() {
            assert(after[i].symbol == listings[i].symbol);
        }
        if j < listings.len() {
            assert(after[j].symbol == listings[j].symbol);
        }
    }
}

/// Listings that are made of others list no market twice.
pub proof fn listed_all_is_sound(markets: Seq<Listing>)
    ensures
        no_listing_twice(listed_all(markets)),
    decreases markets.len(),
{
    if markets.len() > 0 {
        listed_all_is_sound(markets.drop_last());
        lemma_listed(listed_all(markets.drop_last()), markets.last());
    }
}

proof fn lemma_remarked_symbols(listings: Seq<Listing>, symbol: Seq<char>, mark: Double)
    ensures
        remarked(listings, symbol, mark).len() == listings.len(),
        forall|i: int|
            0 <= i < listings.len() ==> (#[trigger] remarked(listings, symbol, mark)[i]).symbol
                == listings[i].symbol,
{
    lemma_listing_place(listings, symbol);
}

proof fn lemma_same_symbols(a: Seq<Listing>, b: Seq<Listing>)
    requires
        no_listing_twice(a),
        a.len() == b.len(),
        forall|i: int| 0 <= i < b.len() ==> (#[trigger] b[i]).symbol == a[i].symbol,
    ensures
        no_listing_twice(b),
{
    assert forall|i: int, j: int| 0 <= i < j < b.len() implies (#[trigger] b[i]).symbol != (
    #[trigger] b[j]).symbol by {
        assert(a[i].symbol != a[j].symbol);
    }
}

proof fn lemma_mids_symbols(listings: Seq<Listing>, mids: Seq<(Seq<char>, Double)>)
    ensures
        listings_with_mids(listings, mids).len() == listings.len(),
        forall|i: int|
            0 <= i < listings.len() ==> (#[trigger] listings_with_mids(listings, mids)[i]).symbol
                == listings[i].symbol,
    decreases mids.len(),
{
    if mids.len() > 0 {
        let before = listings_with_mids(listings, mids.drop_last());
        lemma_mids_symbols(listings, mids.drop_last());
        lemma_remarked_symbols(before, mids.last().0, mids.last().1);
        assert forall|i: int| 0 <= i < listings.len() implies (#[trigger] listings_with_mids(
            listings,
            mids,
        )[i]).symbol == listings[i].symbol by {
            assert(before[i].symbol == listings[i].symbol);
        }
    }
}

proof fn lemma_quote_with_mids(quote: Quote, symbol: Seq<char>, mids: Seq<(Seq<char>, Double)>)
    ensures
        quote_with_mids(quote, symbol, mids).listing == quote.listing,
        quote_with_mids(quote, symbol, mids).trades == quote.trades,
    decreases mids.len(),
{
    if mids.len() > 0 {
        lemma_quote_with_mids(quote, symbol, mids.drop_last());
    }
}

/// The order of the markets' list sorts into ranks.
proof fn lemma_listed_before_ranks()
    ensures
        ranks(listed_before()),
{
    let before = listed_before();
    assert forall|a: Listing, b: Listing| #[trigger] before(a, b) implies !before(b, a) by {
        if text::precedes(a.symbol, b.symbol) {
            text::lemma_precedes_asymmetric(a.symbol, b.symbol);
        }
    }
    assert forall|a: Listing, b: Listing, c: Listing|
        !(#[trigger] before(a, b)) && !(#[trigger] before(b, c)) implies !before(a, c) by {
        if before(a, c) {
            text::lemma_precedes_total(a.symbol, b.symbol);
            text::lemma_precedes_total(b.symbol, c.symbol);
            if text::precedes(a.symbol, c.symbol) {
                text::lemma_precedes_asymmetric(a.symbol, c.symbol);
                if text::precedes(c.symbol, b.symbol) && text::precedes(b.symbol, a.symbol) {
                    text::lemma_precedes_transitive(c.symbol, b.symbol, a.symbol);
                }
            }
        }
    }
}

/// The markets that the desk is told come in the order of the markets' list, and
/// all of them come.
pub proof fn markets_are_sorted(markets: Seq<Listing>)
    ensures
        in_order(sorted(markets, listed_before()), listed_before()),
        sorted(markets, listed_before()).to_multiset() == markets.to_multiset(),
{
    lemma_listed_before_ranks();
    sorting_orders(markets, listed_before());
}

/// The markets that are listed first come in the order of the markets' list, too.
pub proof fn default_markets_are_sorted()
    ensures
        in_order(default_listings(), listed_before()),
        no_listing_twice(default_listings()),
{
    reveal_strlit("SOL");
    reveal_strlit("BTC");
    reveal_strlit("ETH");
    let all = default_listings();
    assert("SOL"@[0] != "BTC"@[0] && "SOL"@[0] != "ETH"@[0] && "BTC"@[0] != "ETH"@[0]);
    assert(rank(all[0].symbol) == 0 && rank(all[1].symbol) == 1 && rank(all[2].symbol) == 2);
}

proof fn lemma_with_bars(state: State, candles: Seq<Candle>)
    requires
        state.valid(),
        candles.len() > 0,
    ensures
        state.with_bars(candles).valid(),
{
    stored_is_sound(
        state.series,
        Bars { symbol: state.symbol, timeframe: state.timeframe, candles },
    );
}

proof fn lemma_seeded(state: State, result: Result<Seq<Candle>, Refusal>, now: u64)
    requires
        state.valid(),
    ensures
        state.seeded(result, now).0.valid(),
{
    if let Ok(incoming) = result {
        if incoming.len() > 0 {
            merge_leaves_some(state.bars(), incoming);
            lemma_with_bars(state, merged(state.bars(), incoming));
        }
    }
}

proof fn lemma_with_markets(state: State, result: Result<Seq<Listing>, Refusal>, now: u64)
    requires
        state.valid(),
    ensures
        state.with_markets(result, now).0.valid(),
{
    if let Ok(markets) = result {
        listed_all_is_sound(sorted(markets, listed_before()));
    }
}

/// A message of the stream keeps the feed valid.
pub proof fn heard_is_valid(state: State, message: Message, now: u64)
    requires
        state.valid(),
    ensures
        state.heard(message, now).0.valid(),
{
    match message {
        Message::Market(tick) => {
            if let Some(mark) = crate::lists::either(tick.mark, tick.mid) {
                lemma_remarked_symbols(state.listings, state.symbol, mark);
                lemma_same_symbols(state.listings, remarked(state.listings, state.symbol, mark));
            }
        },
        Message::Mids(mids) => {
            lemma_mids_symbols(state.listings, mids);
            lemma_same_symbols(state.listings, listings_with_mids(state.listings, mids));
            lemma_quote_with_mids(state.live, state.symbol, mids);
        },
        Message::Candle { timeframe, candle } => {
            upsert_leaves_some(state.bars(), candle);
            if timeframe == state.timeframe {
                lemma_with_bars(state, upserted(state.bars(), candle));
            }
        },
        _ => {},
    }
}

/// The feed is valid at its beginning.
pub proof fn initial_is_valid(now: u64)
    ensures
        State::initial(now).valid(),
{
}

/// The ends of the feed's rounds keep it valid.
proof fn lemma_ends(state: State, dirty: bool, now: u64)
    requires
        state.valid(),
    ensures
        state.after_stream(dirty, now).0.valid(),
        state.wrapped_up(dirty).0.valid(),
        state.started().0.valid(),
        state.after_first_bars(now).0.valid(),
        state.after_selected_bars().0.valid(),
{
    lemma_listing_place(state.listings, state.symbol);
}

proof fn lemma_valid_polled(
    state: State,
    left: u32,
    dirty: bool,
    result: Result<Option<Message>, Seq<char>>,
    now: u64,
)
    requires
        state.valid(),
        left <= POLLS,
    ensures
        state.polled(left, dirty, result, now).state.valid(),
{
    match result {
        Ok(Some(message)) => {
            heard_is_valid(state, message, now);
            let (after, quote_dirty, listing_dirty, save) = state.heard(message, now);
            let next = State {
                markets_dirty: state.markets_dirty || listing_dirty,
                backoff: SHORTEST_BACKOFF,
                ..after
            };
            lemma_ends(next, dirty || quote_dirty, now);
        },
        Ok(None) => {
            lemma_ends(state, dirty, now);
        },
        Err(_) => {
            lemma_ends(State { connected: false, ..state }, dirty, now);
        },
    }
}

proof fn lemma_valid_reconnected(state: State, result: Result<(), Seq<char>>, now: u64)
    requires
        state.valid(),
    ensures
        state.reconnected(result, now).0.valid(),
{
    match result {
        Ok(_) => {
            lemma_ends(State { connected: true, backoff: SHORTEST_BACKOFF, ..state }, false, now);
        },
        Err(_) => {
            lemma_ends(State { backoff: doubled(state.backoff), ..state }, false, now);
        },
    }
}

proof fn lemma_valid_refreshed(
    state: State,
    dirty: bool,
    result: Result<Seq<Listing>, Refusal>,
    now: u64,
)
    requires
        state.valid(),
    ensures
        state.refreshed(dirty, result, now).0.valid(),
{
    lemma_with_markets(state, result, now);
    let after = state.with_markets(result, now).0;
    lemma_listing_place(after.listings, after.symbol);
    match listing_of(after.listings, after.symbol) {
        Some(listing) => {
            lemma_ends(State { live: Quote { listing, ..after.live }, ..after }, true, now);
        },
        None => {
            lemma_ends(after, dirty, now);
        },
    }
}

proof fn lemma_valid_selected(state: State, symbol: Seq<char>, timeframe: Timeframe, now: u64)
    requires
        state.valid(),
    ensures
        state.selected(symbol, timeframe, now).0.valid(),
{
    lemma_listing_place(state.listings, symbol);
}

proof fn lemma_valid_rested(state: State, now: u64)
    requires
        state.valid(),
    ensures
        state.rested(now).0.valid(),
{
    lemma_ends(state, false, now);
}

/// Every step keeps the feed valid.
pub proof fn step_keeps_valid(state: State, answer: Answer, now: u64)
    requires
        state.valid(),
    ensures
        state.stepped(answer, now).state.valid(),
{
    match (state.phase, answer) {
        (Phase::StartSocket, Answer::Connected(_)) => {
            default_markets_are_sorted();
        },
        (Phase::StartCached, Answer::Cached(candles)) => {
            if candles.len() > 0 {
                lemma_with_bars(state, candles);
                lemma_ends(state.with_bars(candles), false, now);
            } else {
                lemma_ends(state, false, now);
            }
        },
        (Phase::StartFetched, Answer::Fetched(result)) => {
            lemma_seeded(state, result, now);
            lemma_ends(state.seeded(result, now).0, false, now);
        },
        (Phase::StartMarkets, Answer::Markets(result)) => {
            lemma_with_markets(state, result, now);
            lemma_ends(state.with_markets(result, now).0, false, now);
        },
        (Phase::Waiting, Answer::Select { symbol, timeframe }) => {
            lemma_valid_selected(state, symbol, timeframe, now);
        },
        (Phase::Waiting, Answer::Quiet) => {
            lemma_valid_rested(state, now);
        },
        (Phase::SelectCached, Answer::Cached(candles)) => {
            if candles.len() > 0 {
                lemma_with_bars(state, candles);
                lemma_ends(state.with_bars(candles), false, now);
            } else {
                lemma_ends(state, false, now);
            }
        },
        (Phase::SelectFetched, Answer::Fetched(result)) => {
            lemma_seeded(state, result, now);
            lemma_ends(state.seeded(result, now).0, false, now);
        },
        (Phase::Polling { left, dirty }, Answer::Polled(result)) => {
            lemma_valid_polled(state, left, dirty, result, now);
        },
        (Phase::Connecting, Answer::Connected(result)) => {
            lemma_valid_reconnected(state, result, now);
        },
        (Phase::Refreshing { dirty }, Answer::Markets(result)) => {
            lemma_valid_refreshed(state, dirty, result, now);
        },
        _ => {},
    }
}

/// Only bars that come, from the cache, the exchange or the stream, change the
/// series, and only those of the selected market and width.
pub proof fn series_change_by_bars(state: State, answer: Answer, now: u64)
    ensures
        ({
            let after = state.stepped(answer, now).state.series;
            ||| after == state.series
            ||| exists|candles: Seq<Candle>| after == #[trigger] state.with_bars(candles).series
        }),
{
    match (state.phase, answer) {
        (Phase::StartCached, Answer::Cached(candles)) => {
            lemma_series_ends(state, false, now);
            lemma_series_ends(state.with_bars(candles), false, now);
        },
        (Phase::StartFetched, Answer::Fetched(result)) => {
            lemma_series_ends(state.seeded(result, now).0, false, now);
        },
        (Phase::StartMarkets, Answer::Markets(result)) => {
            lemma_series_ends(state.with_markets(result, now).0, false, now);
        },
        (Phase::Waiting, Answer::Select { symbol, timeframe }) => {
            assert(state.selected(symbol, timeframe, now).0.series == state.series);
        },
        (Phase::Waiting, Answer::Quiet) => {
            lemma_series_ends(state, false, now);
        },
        (Phase::SelectCached, Answer::Cached(candles)) => {
            lemma_series_ends(state, false, now);
            lemma_series_ends(state.with_bars(candles), false, now);
        },
        (Phase::SelectFetched, Answer::Fetched(result)) => {
            lemma_series_ends(state.seeded(result, now).0, false, now);
        },
        (Phase::Polling { left, dirty }, Answer::Polled(result)) => {
            lemma_series_polled(state, left, dirty, result, now);
        },
        (Phase::Connecting, Answer::Connected(result)) => {
            lemma_series_ends(
                State { connected: true, backoff: SHORTEST_BACKOFF, ..state },
                false,
                now,
            );
            lemma_series_ends(State { backoff: doubled(state.backoff), ..state }, false, now);
        },
        (Phase::Refreshing { dirty }, Answer::Markets(result)) => {
            assert(state.refreshed(dirty, result, now).0.series == state.series);
        },
        _ => {},
    }
}

proof fn lemma_series_ends(state: State, dirty: bool, now: u64)
    ensures
        state.after_stream(dirty, now).0.series == state.series,
        state.started().0.series == state.series,
        state.after_first_bars(now).0.series == state.series,
        state.after_selected_bars().0.series == state.series,
{
}

proof fn lemma_series_polled(
    state: State,
    left: u32,
    dirty: bool,
    result: Result<Option<Message>, Seq<char>>,
    now: u64,
)
    ensures
        state.polled(left, dirty, result, now).state.series == match result {
            Ok(Some(Message::Candle { timeframe, candle })) => if timeframe == state.timeframe {
                state.with_bars(upserted(state.bars(), candle)).series
            } else {
                state.series
            },
            _ => state.series,
        },
{
    match result {
        Ok(Some(message)) => {
            let (after, quote_dirty, listing_dirty, save) = state.heard(message, now);
            let next = State {
                markets_dirty: state.markets_dirty || listing_dirty,
                backoff: SHORTEST_BACKOFF,
                ..after
            };
            lemma_series_ends(next, dirty || quote_dirty, now);
        },
        Ok(None) => {
            lemma_series_ends(state, dirty, now);
        },
        Err(_) => {
            lemma_series_ends(State { connected: false, ..state }, dirty, now);
        },
    }
}

proof fn lemma_bars_are_series(state: State)
    requires
        ordered_series(state.series),
    ensures
        is_series(state.bars()),
{
    lemma_series_place(state.series, state.symbol, state.timeframe);
}

proof fn lemma_ordered_with_bars(state: State, candles: Seq<Candle>)
    requires
        state.valid(),
        ordered_series(state.series),
        is_series(candles),
        candles.len() > 0,
    ensures
        ordered_series(state.with_bars(candles).series),
{
    stored_is_sound(
        state.series,
        Bars { symbol: state.symbol, timeframe: state.timeframe, candles },
    );
}

proof fn lemma_ordered_seeded(state: State, result: Result<Seq<Candle>, Refusal>, now: u64)
    requires
        state.valid(),
        ordered_series(state.series),
    ensures
        ordered_series(state.seeded(result, now).0.series),
{
    if let Ok(incoming) = result {
        if incoming.len() > 0 {
            lemma_bars_are_series(state);
            merge_leaves_some(state.bars(), incoming);
            merge_keeps_series(state.bars(), incoming);
            lemma_ordered_with_bars(state, merged(state.bars(), incoming));
        }
    }
}

/// Every step keeps the bars in time's order, one for each time and within their
/// limit, whatever the exchange sends, as long as the cache gives such bars.
pub proof fn step_keeps_series(state: State, answer: Answer, now: u64)
    requires
        state.valid(),
        ordered_series(state.series),
        answer matches Answer::Cached(candles) ==> is_series(candles),
    ensures
        ordered_series(state.stepped(answer, now).state.series),
{
    match (state.phase, answer) {
        (Phase::StartCached, Answer::Cached(candles)) => {
            lemma_series_ends(state, false, now);
            lemma_series_ends(state.with_bars(candles), false, now);
            if candles.len() > 0 {
                lemma_ordered_with_bars(state, candles);
            }
        },
        (Phase::SelectCached, Answer::Cached(candles)) => {
            lemma_series_ends(state, false, now);
            lemma_series_ends(state.with_bars(candles), false, now);
            if candles.len() > 0 {
                lemma_ordered_with_bars(state, candles);
            }
        },
        (Phase::StartFetched, Answer::Fetched(result)) => {
            lemma_series_ends(state.seeded(result, now).0, false, now);
            lemma_ordered_seeded(state, result, now);
        },
        (Phase::SelectFetched, Answer::Fetched(result)) => {
            lemma_series_ends(state.seeded(result, now).0, false, now);
            lemma_ordered_seeded(state, result, now);
        },
        (Phase::Polling { left, dirty }, Answer::Polled(result)) => {
            lemma_series_polled(state, left, dirty, result, now);
            if let Ok(Some(Message::Candle { timeframe, candle })) = result {
                lemma_bars_are_series(state);
                upsert_keeps_series(state.bars(), candle);
                upsert_leaves_some(state.bars(), candle);
                lemma_ordered_with_bars(state, upserted(state.bars(), candle));
            }
        },
        _ => {
            if !(answer is Cached || answer is Fetched || answer is Polled) {
                lemma_series_unasked(state, answer, now);
            }
        },
    }
}

proof fn lemma_series_unasked(state: State, answer: Answer, now: u64)
    requires
        !(answer is Cached),
        !(answer is Fetched),
        !(answer is Polled),
    ensures
        state.stepped(answer, now).state.series == state.series,
{
    match (state.phase, answer) {
        (Phase::StartMarkets, Answer::Markets(result)) => {
            lemma_series_ends(state.with_markets(result, now).0, false, now);
        },
        (Phase::Waiting, Answer::Select { symbol, timeframe }) => {
            assert(state.selected(symbol, timeframe, now).0.series == state.series);
        },
        (Phase::Waiting, Answer::Quiet) => {
            lemma_series_ends(state, false, now);
        },
        (Phase::Connecting, Answer::Connected(result)) => {
            lemma_series_ends(
                State { connected: true, backoff: SHORTEST_BACKOFF, ..state },
                false,
                now,
            );
            lemma_series_ends(State { backoff: doubled(state.backoff), ..state }, false, now);
        },
        (Phase::Refreshing { dirty }, Answer::Markets(result)) => {
            assert(state.refreshed(dirty, result, now).0.series == state.series);
        },
        _ => {},
    }
}

/// An event fits a state: a desk shows the state's market and width, and markets
/// come in the order of their list.
pub open spec fn fits(event: Event, state: State) -> bool {
    match event {
        Event::Desk(snapshot) => snapshot.symbol == state.symbol && snapshot.timeframe
            == state.timeframe,
        Event::Markets(markets) => in_order(markets, listed_before()),
        Event::Error(_) => true,
    }
}

pub open spec fn all_fit(events: Seq<Event>, state: State) -> bool {
    forall|i: int| 0 <= i < events.len() ==> fits(#[trigger] events[i], state)
}

proof fn lemma_fit_sum(a: Seq<Event>, b: Seq<Event>, state: State)
    requires
        all_fit(a, state),
        all_fit(b, state),
    ensures
        all_fit(a + b, state),
{
    assert forall|i: int| 0 <= i < (a + b).len() implies fits(#[trigger] (a + b)[i], state) by {
        if i < a.len() {
            assert((a + b)[i] == a[i]);
        } else {
            assert((a + b)[i] == b[i - a.len()]);
        }
    }
}

proof fn lemma_fit_wrapped(state: State, dirty: bool, now: u64)
    requires
        state.valid(),
    ensures
        all_fit(state.wrapped_up(dirty).1, state),
        all_fit(state.after_stream(dirty, now).1, state),
{
    markets_are_sorted(state.listings);
    assert(fits(state.current(), state));
}

proof fn lemma_fit_markets(state: State, result: Result<Seq<Listing>, Refusal>, now: u64)
    ensures
        all_fit(state.with_markets(result, now).1, state),
{
    if let Ok(markets) = result {
        markets_are_sorted(markets);
    }
}

proof fn lemma_fit_started(state: State)
    requires
        state.valid(),
    ensures
        all_fit(state.started().1, state),
{
    lemma_listing_place(state.listings, state.symbol);
}

proof fn lemma_fit_polled(
    state: State,
    left: u32,
    dirty: bool,
    result: Result<Option<Message>, Seq<char>>,
    now: u64,
)
    requires
        state.valid(),
    ensures
        all_fit(state.polled(left, dirty, result, now).events, state),
{
    match result {
        Ok(Some(message)) => {
            heard_is_valid(state, message, now);
            let (after, quote_dirty, listing_dirty, save) = state.heard(message, now);
            let next = State {
                markets_dirty: state.markets_dirty || listing_dirty,
                backoff: SHORTEST_BACKOFF,
                ..after
            };
            lemma_heard_selection(state, message, now);
            lemma_fit_wrapped(next, dirty || quote_dirty, now);
        },
        Ok(None) => {
            lemma_fit_wrapped(state, dirty, now);
        },
        Err(error) => {
            let after = State { connected: false, ..state };
            lemma_fit_wrapped(after, dirty, now);
            lemma_fit_sum(seq![Event::Error(error)], after.after_stream(dirty, now).1, state);
        },
    }
}

proof fn lemma_heard_selection(state: State, message: Message, now: u64)
    ensures
        state.heard(message, now).0.symbol == state.symbol,
        state.heard(message, now).0.timeframe == state.timeframe,
{
}

proof fn lemma_fit_reconnected(state: State, result: Result<(), Seq<char>>, now: u64)
    requires
        state.valid(),
    ensures
        all_fit(state.reconnected(result, now).1, state),
{
    match result {
        Ok(_) => {
            let after = State { connected: true, backoff: SHORTEST_BACKOFF, ..state };
            lemma_fit_wrapped(after, false, now);
        },
        Err(error) => {
            let after = State { backoff: doubled(state.backoff), ..state };
            lemma_fit_wrapped(after, false, now);
            lemma_fit_sum(seq![Event::Error(error)], after.after_stream(false, now).1, state);
        },
    }
}

proof fn lemma_fit_refreshed(
    state: State,
    dirty: bool,
    result: Result<Seq<Listing>, Refusal>,
    now: u64,
)
    requires
        state.valid(),
    ensures
        all_fit(state.refreshed(dirty, result, now).1, state),
{
    lemma_with_markets(state, result, now);
    lemma_fit_markets(state, result, now);
    let (after, told) = state.with_markets(result, now);
    lemma_listing_place(after.listings, after.symbol);
    match listing_of(after.listings, after.symbol) {
        Some(listing) => {
            let ready = State { live: Quote { listing, ..after.live }, ..after };
            lemma_fit_wrapped(ready, true, now);
            lemma_fit_sum(told, ready.wrapped_up(true).1, state);
        },
        None => {
            lemma_fit_wrapped(after, dirty, now);
            lemma_fit_sum(told, after.wrapped_up(dirty).1, state);
        },
    }
}

proof fn lemma_fit_first_markets(state: State, result: Result<Seq<Listing>, Refusal>, now: u64)
    requires
        state.valid(),
    ensures
        ({
            let (after, told) = state.with_markets(result, now);
            all_fit(told + after.started().1, state)
        }),
{
    lemma_with_markets(state, result, now);
    lemma_fit_markets(state, result, now);
    let (after, told) = state.with_markets(result, now);
    lemma_fit_started(after);
    lemma_fit_sum(told, after.started().1, state);
}

proof fn lemma_fit_selected_bars(state: State)
    requires
        state.valid(),
    ensures
        all_fit(state.after_selected_bars().1, state),
{
}

proof fn lemma_fit_selected(state: State, symbol: Seq<char>, timeframe: Timeframe, now: u64)
    requires
        state.valid(),
    ensures
        all_fit(
            state.selected(symbol, timeframe, now).1,
            state.selected(symbol, timeframe, now).0,
        ),
{
    lemma_listing_place(state.listings, symbol);
    let live = if symbol != state.symbol {
        match listing_of(state.listings, symbol) {
            Some(listing) => listing.quote(now),
            None => Listing::placeholder(symbol).quote(now),
        }
    } else {
        state.live
    };
    let turned = State { symbol, timeframe, live, ..state };
    lemma_fit_selected_bars(turned);
}

spec fn same_selection(a: State, b: State) -> bool {
    a.symbol == b.symbol && a.timeframe == b.timeframe
}

proof fn lemma_selection_stays(state: State, dirty: bool, now: u64)
    ensures
        same_selection(state.after_stream(dirty, now).0, state),
        same_selection(state.wrapped_up(dirty).0, state),
        same_selection(state.after_first_bars(now).0, state),
        same_selection(state.after_selected_bars().0, state),
        same_selection(state.started().0, state),
{
}

proof fn lemma_selection_polled(
    state: State,
    left: u32,
    dirty: bool,
    result: Result<Option<Message>, Seq<char>>,
    now: u64,
)
    ensures
        same_selection(state.polled(left, dirty, result, now).state, state),
{
    match result {
        Ok(Some(message)) => {
            lemma_heard_selection(state, message, now);
            let (after, quote_dirty, listing_dirty, save) = state.heard(message, now);
            let next = State {
                markets_dirty: state.markets_dirty || listing_dirty,
                backoff: SHORTEST_BACKOFF,
                ..after
            };
            lemma_selection_stays(next, dirty || quote_dirty, now);
        },
        Ok(None) => {
            lemma_selection_stays(state, dirty, now);
        },
        Err(_) => {
            lemma_selection_stays(State { connected: false, ..state }, dirty, now);
        },
    }
}

/// A step other than a selection leaves the selection as it is.
pub proof fn only_commands_select(state: State, answer: Answer, now: u64)
    requires
        !(answer is Select),
    ensures
        state.stepped(answer, now).state.symbol == state.symbol,
        state.stepped(answer, now).state.timeframe == state.timeframe,
{
    match (state.phase, answer) {
        (Phase::StartCached, Answer::Cached(candles)) => {
            lemma_selection_stays(state, false, now);
            lemma_selection_stays(state.with_bars(candles), false, now);
        },
        (Phase::StartFetched, Answer::Fetched(result)) => {
            lemma_selection_stays(state.seeded(result, now).0, false, now);
        },
        (Phase::StartMarkets, Answer::Markets(result)) => {
            lemma_selection_stays(state.with_markets(result, now).0, false, now);
        },
        (Phase::Waiting, Answer::Quiet) => {
            lemma_selection_stays(state, false, now);
        },
        (Phase::SelectCached, Answer::Cached(candles)) => {
            lemma_selection_stays(state, false, now);
            lemma_selection_stays(state.with_bars(candles), false, now);
        },
        (Phase::SelectFetched, Answer::Fetched(result)) => {
            lemma_selection_stays(state.seeded(result, now).0, false, now);
        },
        (Phase::Polling { left, dirty }, Answer::Polled(result)) => {
            lemma_selection_polled(state, left, dirty, result, now);
        },
        (Phase::Connecting, Answer::Connected(result)) => {
            lemma_selection_stays(
                State { connected: true, backoff: SHORTEST_BACKOFF, ..state },
                false,
                now,
            );
            lemma_selection_stays(State { backoff: doubled(state.backoff), ..state }, false, now);
        },
        (Phase::Refreshing { dirty }, Answer::Markets(result)) => {
            let after = state.with_markets(result, now).0;
            lemma_selection_stays(after, dirty, now);
            if let Some(listing) = listing_of(after.listings, after.symbol) {
                lemma_selection_stays(
                    State { live: Quote { listing, ..after.live }, ..after },
                    true,
                    now,
                );
            }
        },
        _ => {},
    }
}

/// What the desk is told at a step is about the market and the width that are
/// then selected, and every list of markets comes in order.
pub proof fn events_fit(state: State, answer: Answer, now: u64)
    requires
        state.valid(),
    ensures
        all_fit(state.stepped(answer, now).events, state.stepped(answer, now).state),
{
    if let Answer::Select { symbol, timeframe } = answer {
        lemma_fit_selected(state, symbol, timeframe, now);
    } else {
        only_commands_select(state, answer, now);
        lemma_events_fit(state, answer, now);
        let outcome = state.stepped(answer, now);
        assert forall|i: int| 0 <= i < outcome.events.len() implies fits(
            #[trigger] outcome.events[i],
            outcome.state,
        ) by {
            assert(fits(outcome.events[i], state));
        }
    }
}

proof fn lemma_events_fit(state: State, answer: Answer, now: u64)
    requires
        state.valid(),
        !(answer is Select),
    ensures
        all_fit(state.stepped(answer, now).events, state),
{
    match (state.phase, answer) {
        (Phase::StartSocket, Answer::Connected(_)) => {
            default_markets_are_sorted();
        },
        (Phase::StartCached, Answer::Cached(candles)) => {
            if candles.len() > 0 {
                lemma_with_bars(state, candles);
                lemma_fit_started(state.with_bars(candles));
            } else {
                lemma_fit_started(state);
            }
        },
        (Phase::StartFetched, Answer::Fetched(result)) => {
            lemma_seeded(state, result, now);
            lemma_fit_started(state.seeded(result, now).0);
        },
        (Phase::StartMarkets, Answer::Markets(result)) => {
            lemma_fit_first_markets(state, result, now);
        },
        (Phase::Waiting, Answer::Quiet) => {
            lemma_fit_wrapped(state, false, now);
        },
        (Phase::SelectCached, Answer::Cached(candles)) => {
            if candles.len() > 0 {
                lemma_with_bars(state, candles);
                lemma_fit_selected_bars(state.with_bars(candles));
            } else {
                lemma_fit_selected_bars(state);
            }
        },
        (Phase::SelectFetched, Answer::Fetched(result)) => {
            lemma_seeded(state, result, now);
            lemma_fit_selected_bars(state.seeded(result, now).0);
        },
        (Phase::Polling { left, dirty }, Answer::Polled(result)) => {
            lemma_fit_polled(state, left, dirty, result, now);
        },
        (Phase::Connecting, Answer::Connected(result)) => {
            lemma_fit_reconnected(state, result, now);
        },
        (Phase::Refreshing { dirty }, Answer::Markets(result)) => {
            lemma_fit_refreshed(state, dirty, result, now);
        },
        _ => {},
    }
}

/// A state asks the exchange only where its pause is over.
spec fn asks_in_time(state: State, now: u64) -> bool {
    state.demand() is FetchCandles || state.demand() is FetchMarkets ==> now
        >= state.rest_cooldown_until
}

proof fn lemma_asks_after_stream(state: State, dirty: bool, now: u64)
    ensures
        asks_in_time(state.after_stream(dirty, now).0, now),
        !(state.after_stream(dirty, now).0.demand() is Connect),
{
}

proof fn lemma_asks_polled(
    state: State,
    left: u32,
    dirty: bool,
    result: Result<Option<Message>, Seq<char>>,
    now: u64,
)
    ensures
        asks_in_time(state.polled(left, dirty, result, now).state, now),
        !(state.polled(left, dirty, result, now).state.demand() is Connect),
{
    match result {
        Ok(Some(message)) => {
            let (after, quote_dirty, listing_dirty, save) = state.heard(message, now);
            let next = State {
                markets_dirty: state.markets_dirty || listing_dirty,
                backoff: SHORTEST_BACKOFF,
                ..after
            };
            lemma_asks_after_stream(next, dirty || quote_dirty, now);
        },
        Ok(None) => {
            lemma_asks_after_stream(state, dirty, now);
        },
        Err(_) => {
            lemma_asks_after_stream(State { connected: false, ..state }, dirty, now);
        },
    }
}

proof fn lemma_asks_first_bars(state: State, now: u64)
    ensures
        asks_in_time(state.after_first_bars(now).0, now),
        !(state.after_first_bars(now).0.demand() is Connect),
        state.started().0.phase == Phase::Waiting,
{
}

proof fn lemma_asks_selected(state: State, symbol: Seq<char>, timeframe: Timeframe, now: u64)
    ensures
        asks_in_time(state.selected(symbol, timeframe, now).0, now),
        !(state.selected(symbol, timeframe, now).0.demand() is Connect),
{
}

proof fn lemma_refreshed_waits(
    state: State,
    dirty: bool,
    result: Result<Seq<Listing>, Refusal>,
    now: u64,
)
    ensures
        state.refreshed(dirty, result, now).0.phase == Phase::Waiting,
{
}

proof fn lemma_asks_selected_bars(state: State, now: u64)
    ensures
        asks_in_time(state.after_selected_bars().0, now),
        !(state.after_selected_bars().0.demand() is Connect),
{
}

proof fn lemma_asks_rested(state: State, now: u64)
    ensures
        asks_in_time(state.rested(now).0, now),
        state.rested(now).0.demand() is Connect ==> elapsed(now, state.last_ws_attempt)
            >= state.backoff && state.rested(now).0.last_ws_attempt == now,
{
    lemma_asks_after_stream(state, false, now);
}

proof fn lemma_asks_reconnected(state: State, result: Result<(), Seq<char>>, now: u64)
    ensures
        asks_in_time(state.reconnected(result, now).0, now),
        !(state.reconnected(result, now).0.demand() is Connect),
{
    lemma_asks_after_stream(
        State { connected: true, backoff: SHORTEST_BACKOFF, ..state },
        false,
        now,
    );
    lemma_asks_after_stream(State { backoff: doubled(state.backoff), ..state }, false, now);
}

/// What a step may ask for.
spec fn asks_well(state: State, after: State, now: u64) -> bool {
    &&& asks_in_time(after, now)
    &&& after.demand() is Connect ==> elapsed(now, state.last_ws_attempt) >= state.backoff
        && after.last_ws_attempt == now
}

proof fn lemma_asks_at_start(state: State, answer: Answer, now: u64)
    requires
        state.phase is StartSocket || state.phase is StartCached || state.phase is StartFetched
            || state.phase is StartMarkets,
        state.stepped(answer, now).state.phase != state.phase,
    ensures
        asks_well(state, state.stepped(answer, now).state, now),
{
    match (state.phase, answer) {
        (Phase::StartCached, Answer::Cached(candles)) => {
            lemma_asks_first_bars(state, now);
            lemma_asks_first_bars(state.with_bars(candles), now);
        },
        (Phase::StartFetched, Answer::Fetched(result)) => {
            lemma_asks_first_bars(state.seeded(result, now).0, now);
        },
        (Phase::StartMarkets, Answer::Markets(result)) => {
            lemma_asks_first_bars(state.with_markets(result, now).0, now);
        },
        _ => {},
    }
}

proof fn lemma_asks_at_selection(state: State, answer: Answer, now: u64)
    requires
        state.phase is SelectCached || state.phase is SelectFetched || state.phase is SelectSocket,
        state.stepped(answer, now).state.phase != state.phase,
    ensures
        asks_well(state, state.stepped(answer, now).state, now),
{
    match (state.phase, answer) {
        (Phase::SelectCached, Answer::Cached(candles)) => {
            lemma_asks_selected_bars(state, now);
            lemma_asks_selected_bars(state.with_bars(candles), now);
        },
        (Phase::SelectFetched, Answer::Fetched(result)) => {
            lemma_asks_selected_bars(state.seeded(result, now).0, now);
        },
        _ => {},
    }
}

proof fn lemma_asks(state: State, answer: Answer, now: u64)
    requires
        state.stepped(answer, now).state.phase != state.phase,
    ensures
        asks_well(state, state.stepped(answer, now).state, now),
{
    match (state.phase, answer) {
        (Phase::Waiting, Answer::Select { symbol, timeframe }) => {
            lemma_asks_selected(state, symbol, timeframe, now);
        },
        (Phase::Waiting, Answer::Quiet) => {
            lemma_asks_rested(state, now);
        },
        (Phase::Polling { left, dirty }, Answer::Polled(result)) => {
            lemma_asks_polled(state, left, dirty, result, now);
        },
        (Phase::Connecting, Answer::Connected(result)) => {
            lemma_asks_reconnected(state, result, now);
        },
        (Phase::Refreshing { dirty }, Answer::Markets(result)) => {
            lemma_refreshed_waits(state, dirty, result, now);
        },
        (Phase::SelectCached, _) | (Phase::SelectFetched, _) | (Phase::SelectSocket, _) => {
            lemma_asks_at_selection(state, answer, now);
        },
        (Phase::StartSocket, _) | (Phase::StartCached, _) | (Phase::StartFetched, _) | (
            Phase::StartMarkets,
            _,
        ) => {
            lemma_asks_at_start(state, answer, now);
        },
        _ => {},
    }
}

/// The exchange is asked anew only when the pause that it has asked for is over.
pub proof fn pause_is_kept(state: State, answer: Answer, now: u64)
    requires
        state.stepped(answer, now).state.phase != state.phase,
    ensures
        ({
            let after = state.stepped(answer, now).state;
            after.demand() is FetchCandles || after.demand() is FetchMarkets ==> now
                >= after.rest_cooldown_until
        }),
{
    lemma_asks(state, answer, now);
}

/// The feed connects anew only when the time between two attempts has gone by.
pub proof fn backoff_is_kept(state: State, answer: Answer, now: u64)
    requires
        state.stepped(answer, now).state.phase != state.phase,
    ensures
        state.stepped(answer, now).state.demand() is Connect ==> elapsed(now, state.last_ws_attempt)
            >= state.backoff && state.stepped(answer, now).state.last_ws_attempt == now,
{
    lemma_asks(state, answer, now);
}

/// A round of looks at the stream comes to its end: each look leaves fewer.
pub proof fn rounds_end(state: State, answer: Answer, now: u64)
    requires
        answer is Polled,
    ensures
        match (state.phase, state.stepped(answer, now).state.phase) {
            (Phase::Polling { left: before, .. }, Phase::Polling { left: after, .. }) => after
                < before,
            _ => true,
        },
{
}

/// A feed that has stopped stays so and says nothing more.
pub proof fn stopped_stays(state: State, answer: Answer, now: u64)
    requires
        state.phase == Phase::Stopped,
    ensures
        state.stepped(answer, now).state == state,
        state.stepped(answer, now).events.len() == 0,
        state.demand() == Demand::Stop,
{
}

/// A tick that says nothing changes nothing.
pub proof fn silent_tick(quote: Quote)
    ensures
        quote.ticked(MarketTick::silent()) == quote,
{
}

/// The trades of a quote are the newest: the incoming ones first, then as many of
/// the others as there is room for.
pub proof fn newest_trades_first(existing: Seq<Deal>, incoming: Seq<Deal>, i: int)
    requires
        0 <= i < incoming.len() + existing.len(),
        i < TRADE_LIMIT,
    ensures
        prepended(existing, incoming).len() <= TRADE_LIMIT,
        prepended(existing, incoming)[i] == if i < incoming.len() {
            incoming[i]
        } else {
            existing[i - incoming.len()]
        },
{
}

/// Whatever comes, the bars of every market and width that are not selected stay.
pub proof fn other_bars_stay(
    state: State,
    answer: Answer,
    now: u64,
    symbol: Seq<char>,
    timeframe: Timeframe,
)
    requires
        state.symbol != symbol || state.timeframe != timeframe,
    ensures
        bars_of(state.stepped(answer, now).state.series, symbol, timeframe) == bars_of(
            state.series,
            symbol,
            timeframe,
        ),
{
    series_change_by_bars(state, answer, now);
    let after = state.stepped(answer, now).state.series;
    if after != state.series {
        let candles = choose|candles: Seq<Candle>|
            after == #[trigger] state.with_bars(candles).series;
        lemma_others_stay(state, candles, symbol, timeframe);
    }
}

proof fn lemma_others_stay(
    state: State,
    candles: Seq<Candle>,
    symbol: Seq<char>,
    timeframe: Timeframe,
)
    requires
        state.symbol != symbol || state.timeframe != timeframe,
    ensures
        bars_of(state.with_bars(candles).series, symbol, timeframe) == bars_of(
            state.series,
            symbol,
            timeframe,
        ),
{
    stored_bars_are_there(
        state.series,
        Bars { symbol: state.symbol, timeframe: state.timeframe, candles },
        symbol,
        timeframe,
    );
}

/// Bars that the feed holds are shown without a look at the cache or a request to
/// the exchange.
pub proof fn held_bars_show_at_once(
    state: State,
    symbol: Seq<char>,
    timeframe: Timeframe,
    now: u64,
)
    requires
        state.phase == Phase::Waiting,
        bars_of(state.series, symbol, timeframe).len() > 0,
    ensures
        ({
            let after = state.stepped(Answer::Select { symbol, timeframe }, now).state;
            &&& after.bars() == bars_of(state.series, symbol, timeframe)
            &&& after.demand() is Wait || after.demand() is Select
        }),
{
    assert(state.stepped(Answer::Select { symbol, timeframe }, now).state == state.selected(
        symbol,
        timeframe,
        now,
    ).0);
}

/// Bars that the cache holds spare the exchange a request for them.
pub proof fn cached_bars_spare_the_exchange(state: State, candles: Seq<Candle>, now: u64)
    requires
        candles.len() > 0,
        state.phase == Phase::StartCached || state.phase == Phase::SelectCached,
    ensures
        ({
            let after = state.stepped(Answer::Cached(candles), now).state;
            &&& after.bars() == candles
            &&& !(after.demand() is FetchCandles)
        }),
{
    stored_bars_are_there(
        state.series,
        Bars { symbol: state.symbol, timeframe: state.timeframe, candles },
        state.symbol,
        state.timeframe,
    );
    let kept = state.with_bars(candles);
    lemma_series_ends(kept, false, now);
    lemma_selection_stays(kept, false, now);
    if state.phase == Phase::StartCached {
        assert(state.stepped(Answer::Cached(candles), now).state == kept.after_first_bars(now).0);
    } else {
        assert(state.stepped(Answer::Cached(candles), now).state == kept.after_selected_bars().0);
    }
}

/// After the beginning the markets are asked for no sooner than two minutes after
/// the time before.
pub proof fn markets_are_asked_slowly(state: State, answer: Answer, now: u64)
    requires
        !(state.phase is Refreshing),
        state.stepped(answer, now).state.phase is Refreshing,
    ensures
        elapsed(now, state.last_markets) >= MARKET_REFRESH,
        state.stepped(answer, now).state.last_markets == now,
{
    match (state.phase, answer) {
        (Phase::StartCached, Answer::Cached(candles)) => {
            lemma_not_refreshing(state, now);
            lemma_not_refreshing(state.with_bars(candles), now);
        },
        (Phase::StartFetched, Answer::Fetched(result)) => {
            lemma_not_refreshing(state.seeded(result, now).0, now);
        },
        (Phase::StartMarkets, Answer::Markets(result)) => {
            lemma_not_refreshing(state.with_markets(result, now).0, now);
        },
        (Phase::Waiting, Answer::Select { symbol, timeframe }) => {
            lemma_selected_not_refreshing(state, symbol, timeframe, now);
        },
        (Phase::Waiting, Answer::Quiet) => {
            lemma_refreshing(state, false, now);
        },
        (Phase::SelectCached, Answer::Cached(candles)) => {
            lemma_not_refreshing(state, now);
            lemma_not_refreshing(state.with_bars(candles), now);
        },
        (Phase::SelectFetched, Answer::Fetched(result)) => {
            lemma_not_refreshing(state.seeded(result, now).0, now);
        },
        (Phase::Polling { left, dirty }, Answer::Polled(result)) => {
            lemma_polled_refreshing(state, left, dirty, result, now);
        },
        (Phase::Connecting, Answer::Connected(result)) => {
            lemma_refreshing(
                State { connected: true, backoff: SHORTEST_BACKOFF, ..state },
                false,
                now,
            );
            lemma_refreshing(State { backoff: doubled(state.backoff), ..state }, false, now);
        },
        _ => {},
    }
}

/// The round after the stream refreshes only where it is time.
spec fn refreshes_in_time(before: State, after: State, now: u64) -> bool {
    after.phase is Refreshing ==> elapsed(now, before.last_markets) >= MARKET_REFRESH
        && after.last_markets == now
}

proof fn lemma_refreshing(state: State, dirty: bool, now: u64)
    ensures
        refreshes_in_time(state, state.after_stream(dirty, now).0, now),
{
}

proof fn lemma_polled_refreshing(
    state: State,
    left: u32,
    dirty: bool,
    result: Result<Option<Message>, Seq<char>>,
    now: u64,
)
    ensures
        refreshes_in_time(state, state.polled(left, dirty, result, now).state, now),
{
    match result {
        Ok(Some(message)) => {
            let (after, quote_dirty, listing_dirty, save) = state.heard(message, now);
            let next = State {
                markets_dirty: state.markets_dirty || listing_dirty,
                backoff: SHORTEST_BACKOFF,
                ..after
            };
            assert(next.last_markets == state.last_markets);
            lemma_refreshing(next, dirty || quote_dirty, now);
        },
        Ok(None) => {
            lemma_refreshing(state, dirty, now);
        },
        Err(_) => {
            lemma_refreshing(State { connected: false, ..state }, dirty, now);
        },
    }
}

proof fn lemma_not_refreshing(state: State, now: u64)
    ensures
        !(state.after_first_bars(now).0.phase is Refreshing),
        !(state.after_selected_bars().0.phase is Refreshing),
        !(state.started().0.phase is Refreshing),
{
}

proof fn lemma_selected_not_refreshing(
    state: State,
    symbol: Seq<char>,
    timeframe: Timeframe,
    now: u64,
)
    ensures
        !(state.selected(symbol, timeframe, now).0.phase is Refreshing),
{
}

} // verus!
