//! What each message, reply and command changes of the feed, part by part, and when
//! the feed asks for what.

use super::laws::{no_listing_twice, stored_bars_are_there};
use super::machine::{
    after_seconds, default_listings, doubled, lemma_listing_place, lemma_remarked, Answer, Demand,
    Phase, State,
};
use super::{
    bars_of, listed, listed_all, listing_of, listing_place, listings_with_mids, quote_with_mids, rank,
    remarked, Bars, Event,
};
use crate::candles::{merged, upserted};
use crate::double::Double;
use crate::market::laws::lemma_order;
use crate::market::{Book, Candle, Deal, Listing, Quote};
use crate::rest::Refusal;
use crate::timeframe::Timeframe;
use crate::ws::{MarketTick, Message};
use vstd::prelude::*;

verus! {

/// A tick's word on one number of a quote: the new number is the one that the tick
/// says, and the old one where it says none.
pub open spec fn takes(said: Option<Double>, old: Option<Double>, new: Option<Double>) -> bool {
    &&& said is Some ==> new == said
    &&& said is None ==> new == old
}

/// A tick tells a quote its eight numbers one by one. What it says the quote holds
/// exactly, what it does not say stays, and so does all else of the quote.
pub proof fn ticks_tell_each_number(quote: Quote, tick: MarketTick)
    ensures
        takes(tick.mark, quote.mark, quote.ticked(tick).mark),
        takes(tick.index, quote.index, quote.ticked(tick).index),
        takes(tick.mid, quote.mid, quote.ticked(tick).mid),
        takes(tick.prev_day, quote.prev_day, quote.ticked(tick).prev_day),
        takes(tick.funding_pct, quote.funding_pct, quote.ticked(tick).funding_pct),
        takes(tick.open_interest, quote.open_interest, quote.ticked(tick).open_interest),
        takes(tick.volume_24h, quote.volume_24h, quote.ticked(tick).volume_24h),
        takes(tick.change_24h_pct, quote.change_24h_pct, quote.ticked(tick).change_24h_pct),
        quote.ticked(tick).listing == quote.listing,
        quote.ticked(tick).book == quote.book,
        quote.ticked(tick).trades == quote.trades,
        quote.ticked(tick).fetched_at == quote.fetched_at,
{
}

/// Of two ticks the later one counts, number by number.
pub proof fn later_ticks_count(quote: Quote, one: MarketTick, two: MarketTick)
    ensures
        two.mark is Some ==> quote.ticked(one).ticked(two).mark == two.mark,
        two.index is Some ==> quote.ticked(one).ticked(two).index == two.index,
        two.mid is Some ==> quote.ticked(one).ticked(two).mid == two.mid,
        two.prev_day is Some ==> quote.ticked(one).ticked(two).prev_day == two.prev_day,
        two.funding_pct is Some ==> quote.ticked(one).ticked(two).funding_pct == two.funding_pct,
        two.open_interest is Some ==> quote.ticked(one).ticked(two).open_interest
            == two.open_interest,
        two.volume_24h is Some ==> quote.ticked(one).ticked(two).volume_24h == two.volume_24h,
        two.change_24h_pct is Some ==> quote.ticked(one).ticked(two).change_24h_pct
            == two.change_24h_pct,
        quote.ticked(two).ticked(two) == quote.ticked(two),
{
}

/// A message on the market that is selected reaches the quote, and its mark, else its
/// mid, the market's listing; the other listings and the bars stay.
pub proof fn ticks_are_heard(state: State, tick: MarketTick, now: u64, other: Seq<char>)
    ensures
        ({
            let after = state.heard(Message::Market(tick), now).0;
            &&& takes(tick.mark, state.live.mark, after.live.mark)
            &&& takes(tick.index, state.live.index, after.live.index)
            &&& takes(tick.mid, state.live.mid, after.live.mid)
            &&& takes(tick.prev_day, state.live.prev_day, after.live.prev_day)
            &&& takes(tick.funding_pct, state.live.funding_pct, after.live.funding_pct)
            &&& takes(tick.open_interest, state.live.open_interest, after.live.open_interest)
            &&& takes(tick.volume_24h, state.live.volume_24h, after.live.volume_24h)
            &&& takes(tick.change_24h_pct, state.live.change_24h_pct, after.live.change_24h_pct)
            &&& after.live.fetched_at == now
            &&& after.live.book == state.live.book && after.live.trades == state.live.trades
                && after.live.listing == state.live.listing
            &&& after.series == state.series
            &&& state.heard(Message::Market(tick), now).1
            &&& state.heard(Message::Market(tick), now).3 is None
            &&& listing_of(state.listings, state.symbol) matches Some(listing) ==> {
                &&& listing_of(after.listings, state.symbol) is Some
                &&& takes(
                    if tick.mark is Some {
                        tick.mark
                    } else {
                        tick.mid
                    },
                    listing.mark,
                    listing_of(after.listings, state.symbol)->0.mark,
                )
                &&& state.heard(Message::Market(tick), now).2 == (tick.mark is Some
                    || tick.mid is Some)
            }
            &&& other != state.symbol ==> listing_of(after.listings, other) == listing_of(
                state.listings,
                other,
            )
        }),
{
    if let Some(mark) = crate::lists::either(tick.mark, tick.mid) {
        marks_reach_one_listing(state.listings, state.symbol, mark, state.symbol);
        marks_reach_one_listing(state.listings, state.symbol, mark, other);
    }
}

/// A mark changes the mark of its market's listing and nothing else.
pub proof fn marks_reach_one_listing(
    listings: Seq<Listing>,
    symbol: Seq<char>,
    mark: Double,
    other: Seq<char>,
)
    ensures
        remarked(listings, symbol, mark).len() == listings.len(),
        other != symbol ==> listing_of(remarked(listings, symbol, mark), other) == listing_of(
            listings,
            other,
        ),
        listing_of(remarked(listings, symbol, mark), symbol) is Some == listing_of(
            listings,
            symbol,
        ) is Some,
        listing_of(listings, symbol) matches Some(old) ==> {
            let new = listing_of(remarked(listings, symbol, mark), symbol)->0;
            &&& new.mark == Some(mark)
            &&& new.symbol == old.symbol && new.name == old.name && new.status == old.status
            &&& new.isolated_only == old.isolated_only && new.is_commodity == old.is_commodity
            &&& new.max_leverage == old.max_leverage && new.taker_fee == old.taker_fee
                && new.maker_fee == old.maker_fee
            &&& new.base_lots_decimals == old.base_lots_decimals && new.open_interest
                == old.open_interest
        },
{
    lemma_listing_place(listings, symbol);
    lemma_listing_place(listings, other);
    lemma_remarked(listings, symbol, mark, symbol);
    lemma_remarked(listings, symbol, mark, other);
}

/// A book that comes is the quote's book. Its mid, if it has one, is the quote's mid;
/// it is the mark too where the quote had none. All else stays.
pub proof fn books_are_heard(state: State, book: Book, now: u64)
    ensures
        ({
            let after = state.heard(Message::Orderbook(book), now).0;
            &&& after.live.book == book
            &&& takes(book.mid, state.live.mid, after.live.mid)
            &&& state.live.mark is Some ==> after.live.mark == state.live.mark
            &&& state.live.mark is None ==> after.live.mark == after.live.mid
            &&& after.live.fetched_at == now
            &&& after.live.index == state.live.index && after.live.prev_day == state.live.prev_day
            &&& after.live.funding_pct == state.live.funding_pct && after.live.open_interest
                == state.live.open_interest
            &&& after.live.volume_24h == state.live.volume_24h && after.live.change_24h_pct
                == state.live.change_24h_pct
            &&& after.live.trades == state.live.trades && after.live.listing == state.live.listing
            &&& after.listings == state.listings && after.series == state.series
            &&& state.heard(Message::Orderbook(book), now).1
            &&& !state.heard(Message::Orderbook(book), now).2
            &&& state.heard(Message::Orderbook(book), now).3 is None
        }),
{
}

/// Trades that come stand in front of the others, in their order, and at most forty
/// are kept. All else stays.
pub proof fn trades_are_heard(state: State, trades: Seq<Deal>, now: u64, i: int)
    requires
        0 <= i < 40,
    ensures
        ({
            let after = state.heard(Message::Trades(trades), now).0;
            &&& after.live.trades.len() <= 40
            &&& trades.len() + state.live.trades.len() <= 40 ==> after.live.trades.len()
                == trades.len() + state.live.trades.len()
            &&& trades.len() + state.live.trades.len() > 40 ==> after.live.trades.len() == 40
            &&& i < trades.len() ==> after.live.trades[i] == trades[i]
            &&& trades.len() <= i < trades.len() + state.live.trades.len()
                ==> after.live.trades[i] == state.live.trades[i - trades.len()]
            &&& after.live.fetched_at == now
            &&& after.live.mark == state.live.mark && after.live.mid == state.live.mid
                && after.live.index == state.live.index
            &&& after.live.book == state.live.book && after.live.listing == state.live.listing
            &&& after.listings == state.listings && after.series == state.series
            &&& state.heard(Message::Trades(trades), now).1
            &&& state.heard(Message::Trades(trades), now).3 is None
        }),
{
}

/// Of the mids that come, the last one of the quote's market is its mid, and the
/// first one its mark where it had none. All else of it stays.
pub proof fn mids_reach_the_quote(
    quote: Quote,
    symbol: Seq<char>,
    mids: Seq<(Seq<char>, Double)>,
    at: int,
)
    requires
        0 <= at < mids.len(),
        mids[at].0 == symbol,
    ensures
        ({
            let after = quote_with_mids(quote, symbol, mids);
            &&& (forall|j: int| at < j < mids.len() ==> (#[trigger] mids[j]).0 != symbol)
                ==> after.mid == Some(mids[at].1)
            &&& quote.mark is Some ==> after.mark == quote.mark
            &&& quote.mark is None && (forall|j: int|
                0 <= j < at ==> (#[trigger] mids[j]).0 != symbol) ==> after.mark == Some(
                mids[at].1,
            )
            &&& after.book == quote.book && after.trades == quote.trades && after.listing
                == quote.listing && after.index == quote.index
            &&& after.fetched_at == quote.fetched_at && after.prev_day == quote.prev_day
                && after.change_24h_pct == quote.change_24h_pct
        }),
    decreases mids.len(),
{
    let before = mids.drop_last();
    lemma_quote_mids_keep(quote, symbol, before);
    if at < before.len() {
        mids_reach_the_quote(quote, symbol, before, at);
        assert(before[at] == mids[at]);
        assert(mids.last() == mids[mids.len() - 1]);
        assert(forall|j: int| 0 <= j < before.len() ==> before[j] == #[trigger] mids[j]);
    } else if forall|j: int| 0 <= j < at ==> (#[trigger] mids[j]).0 != symbol {
        assert forall|j: int| 0 <= j < before.len() implies (#[trigger] before[j]).0 != symbol by {
            assert(before[j] == mids[j]);
        }
        other_mids_change_nothing(quote, symbol, before);
    }
}

proof fn lemma_quote_mids_keep(quote: Quote, symbol: Seq<char>, mids: Seq<(Seq<char>, Double)>)
    ensures
        ({
            let after = quote_with_mids(quote, symbol, mids);
            &&& quote.mark is Some ==> after.mark == quote.mark
            &&& after.book == quote.book && after.trades == quote.trades && after.listing
                == quote.listing && after.index == quote.index
            &&& after.fetched_at == quote.fetched_at && after.prev_day == quote.prev_day
                && after.change_24h_pct == quote.change_24h_pct
        }),
    decreases mids.len(),
{
    if mids.len() > 0 {
        lemma_quote_mids_keep(quote, symbol, mids.drop_last());
    }
}

/// Mids of other markets do not change a quote.
pub proof fn other_mids_change_nothing(
    quote: Quote,
    symbol: Seq<char>,
    mids: Seq<(Seq<char>, Double)>,
)
    requires
        forall|j: int| 0 <= j < mids.len() ==> (#[trigger] mids[j]).0 != symbol,
    ensures
        quote_with_mids(quote, symbol, mids) == quote,
    decreases mids.len(),
{
    if mids.len() > 0 {
        let before = mids.drop_last();
        assert(mids.last() == mids[mids.len() - 1]);
        assert forall|j: int| 0 <= j < before.len() implies (#[trigger] before[j]).0 != symbol by {
            assert(before[j] == mids[j]);
        }
        other_mids_change_nothing(quote, symbol, before);
    }
}

/// A listing whose market has no mid stays.
pub proof fn other_mids_change_no_listing(
    listings: Seq<Listing>,
    mids: Seq<(Seq<char>, Double)>,
    symbol: Seq<char>,
)
    requires
        forall|j: int| 0 <= j < mids.len() ==> (#[trigger] mids[j]).0 != symbol,
    ensures
        listing_of(listings_with_mids(listings, mids), symbol) == listing_of(listings, symbol),
    decreases mids.len(),
{
    if mids.len() > 0 {
        let before = mids.drop_last();
        let last = mids.last();
        assert(last == mids[mids.len() - 1]);
        assert forall|j: int| 0 <= j < before.len() implies (#[trigger] before[j]).0 != symbol by {
            assert(before[j] == mids[j]);
        }
        other_mids_change_no_listing(listings, before, symbol);
        marks_reach_one_listing(listings_with_mids(listings, before), last.0, last.1, symbol);
    }
}

/// Mids list no market and drop none.
proof fn lemma_mids_list_none(
    listings: Seq<Listing>,
    mids: Seq<(Seq<char>, Double)>,
    symbol: Seq<char>,
)
    ensures
        listing_of(listings_with_mids(listings, mids), symbol) is Some == listing_of(
            listings,
            symbol,
        ) is Some,
    decreases mids.len(),
{
    if mids.len() > 0 {
        let before = mids.drop_last();
        let last = mids.last();
        lemma_mids_list_none(listings, before, symbol);
        marks_reach_one_listing(listings_with_mids(listings, before), last.0, last.1, symbol);
    }
}

/// Of the mids that come, the last one of a listed market is its listing's mark.
pub proof fn mids_reach_the_listings(
    listings: Seq<Listing>,
    mids: Seq<(Seq<char>, Double)>,
    symbol: Seq<char>,
    at: int,
)
    requires
        0 <= at < mids.len(),
        mids[at].0 == symbol,
        forall|j: int| at < j < mids.len() ==> (#[trigger] mids[j]).0 != symbol,
        listing_of(listings, symbol) is Some,
    ensures
        listing_of(listings_with_mids(listings, mids), symbol) is Some,
        listing_of(listings_with_mids(listings, mids), symbol)->0.mark == Some(mids[at].1),
    decreases mids.len(),
{
    let before = mids.drop_last();
    let last = mids.last();
    assert(last == mids[mids.len() - 1]);
    lemma_mids_list_none(listings, before, symbol);
    marks_reach_one_listing(listings_with_mids(listings, before), last.0, last.1, symbol);
    if at < before.len() {
        assert(before[at] == mids[at]);
        assert forall|j: int| at < j < before.len() implies (#[trigger] before[j]).0 != symbol by {
            assert(before[j] == mids[j]);
        }
        assert(last.0 != symbol);
        mids_reach_the_listings(listings, before, symbol, at);
    }
}

/// Mids reach the selected market's quote and the listings, and nothing else.
pub proof fn mids_are_heard(state: State, mids: Seq<(Seq<char>, Double)>, now: u64)
    ensures
        ({
            let after = state.heard(Message::Mids(mids), now).0;
            &&& after.live == quote_with_mids(state.live, state.symbol, mids)
            &&& after.listings == listings_with_mids(state.listings, mids)
            &&& after.series == state.series && after.symbol == state.symbol && after.timeframe
                == state.timeframe
            &&& state.heard(Message::Mids(mids), now).1
            &&& state.heard(Message::Mids(mids), now).3 is None
            &&& state.heard(Message::Mids(mids), now).2 == exists|i: int|
                0 <= i < mids.len() && listing_of(state.listings, (#[trigger] mids[i]).0) is Some
        }),
{
}

/// A bar that comes joins the selected market's bars, and is kept by itself, where it
/// has the selected width. Else it changes nothing.
pub proof fn bars_are_heard(state: State, timeframe: Timeframe, candle: Candle, now: u64)
    ensures
        ({
            let (after, quote_dirty, listing_dirty, save) = state.heard(
                Message::Candle { timeframe, candle },
                now,
            );
            &&& after.live == state.live && after.listings == state.listings
            &&& timeframe != state.timeframe ==> after == state && !quote_dirty && save is None
            &&& timeframe == state.timeframe ==> {
                &&& after.bars() == upserted(state.bars(), candle)
                &&& quote_dirty
                &&& save is Some && save->0.symbol == state.symbol && save->0.timeframe
                    == state.timeframe
                &&& save->0.candles.len() == 1 && save->0.candles[0] == candle
            }
            &&& !listing_dirty
        }),
{
    stored_bars_are_there(
        state.series,
        Bars {
            symbol: state.symbol,
            timeframe: state.timeframe,
            candles: upserted(state.bars(), candle),
        },
        state.symbol,
        state.timeframe,
    );
}

/// A listing that is put in is found, and those of other markets stay.
pub proof fn listings_are_found(listings: Seq<Listing>, listing: Listing, symbol: Seq<char>)
    ensures
        symbol == listing.symbol ==> listing_of(listed(listings, listing), symbol) == Some(listing),
        symbol != listing.symbol ==> listing_of(listed(listings, listing), symbol) == listing_of(
            listings,
            symbol,
        ),
{
    let after = listed(listings, listing);
    let at = listing_place(listings, listing.symbol);
    lemma_listing_place(listings, listing.symbol);
    lemma_listing_place(listings, symbol);
    lemma_listing_place(after, symbol);
    let new = listing_place(after, symbol);
    let old = listing_place(listings, symbol);
    assert forall|i: int| 0 <= i < listings.len() implies (#[trigger] after[i]).symbol
        == listings[i].symbol by {}
    if at >= listings.len() {
        assert(after[listings.len() as int] == listing);
    }
    if new < listings.len() {
        assert(after[new].symbol == listings[new].symbol);
    }
    if old < listings.len() {
        assert(after[old].symbol == listings[old].symbol);
    }
}

/// Of listings that are put in one by one, the last of each market is found, and no
/// market that has none.
pub proof fn last_listings_are_found(markets: Seq<Listing>, symbol: Seq<char>)
    ensures
        (forall|j: int| 0 <= j < markets.len() ==> (#[trigger] markets[j]).symbol != symbol)
            ==> listing_of(listed_all(markets), symbol) is None,
        forall|at: int|
            0 <= at < markets.len() && (#[trigger] markets[at]).symbol == symbol && (forall|j: int|
                at < j < markets.len() ==> (#[trigger] markets[j]).symbol != symbol)
                ==> listing_of(listed_all(markets), symbol) == Some(markets[at]),
    decreases markets.len(),
{
    if markets.len() > 0 {
        let before = markets.drop_last();
        last_listings_are_found(before, symbol);
        listings_are_found(listed_all(before), markets.last(), symbol);
        assert(markets.last() == markets[markets.len() - 1]);
        if forall|j: int| 0 <= j < markets.len() ==> (#[trigger] markets[j]).symbol != symbol {
            assert forall|j: int| 0 <= j < before.len() implies (#[trigger] before[j]).symbol
                != symbol by {
                assert(before[j] == markets[j]);
            }
        }
        assert forall|at: int|
            0 <= at < markets.len() && (#[trigger] markets[at]).symbol == symbol && (forall|j: int|
                at < j < markets.len() ==> (#[trigger] markets[j]).symbol
                    != symbol) implies listing_of(listed_all(markets), symbol) == Some(
            markets[at],
        ) by {
            if at < before.len() {
                assert(before[at] == markets[at]);
                assert forall|j: int| at < j < before.len() implies (#[trigger] before[j]).symbol
                    != symbol by {
                    assert(before[j] == markets[j]);
                }
            }
        }
    }
}

/// Solana, bitcoin and ether come first in the markets' list, in this order, and the
/// others behind them.
pub proof fn majors_come_first(symbol: Seq<char>)
    ensures
        rank("SOL"@) < rank("BTC"@) < rank("ETH"@),
        symbol != "SOL"@ && symbol != "BTC"@ && symbol != "ETH"@ ==> rank("ETH"@) < rank(symbol),
        symbol != "SOL"@ && symbol != "BTC"@ && symbol != "ETH"@ ==> rank(symbol) == 10,
        rank("SOL"@) == 0 && rank("BTC"@) == 1 && rank("ETH"@) == 2,
{
    reveal_strlit("SOL");
    reveal_strlit("BTC");
    reveal_strlit("ETH");
    assert("SOL"@[0] != "BTC"@[0] && "SOL"@[0] != "ETH"@[0] && "BTC"@[0] != "ETH"@[0]);
}

/// The exchange's markets that come are told to the desk, all of them, and each is
/// found among the listings. A refusal changes no listing; the desk is told of it only
/// where there is no listing at all. A limited rate stops the requests for as many
/// seconds as the exchange asks.
pub proof fn markets_are_taken(state: State, result: Result<Seq<Listing>, Refusal>, now: u64)
    ensures
        ({
            let (after, told) = state.with_markets(result, now);
            &&& after.live == state.live && after.series == state.series && after.symbol
                == state.symbol && after.timeframe == state.timeframe
            &&& result matches Ok(markets) ==> {
                &&& told.len() == 1 && told[0] is Markets
                &&& told[0]->Markets_0.to_multiset() == markets.to_multiset()
                &&& after.rest_cooldown_until == state.rest_cooldown_until
                &&& no_listing_twice(after.listings)
                &&& after.listings == listed_all(told[0]->Markets_0)
            }
            &&& result matches Err(error) ==> {
                &&& after.listings == state.listings
                &&& state.listings.len() > 0 ==> told.len() == 0
                &&& state.listings.len() == 0 ==> told.len() == 1 && told[0] == Event::Error(
                    error.text(),
                )
                &&& error is Failed ==> after.rest_cooldown_until == state.rest_cooldown_until
                &&& error is RateLimited && now + error->RateLimited_0.retry_after * 1_000_000_000
                    <= u64::MAX ==> after.rest_cooldown_until == now
                    + error->RateLimited_0.retry_after * 1_000_000_000
            }
        }),
{
    if let Ok(markets) = result {
        super::laws::markets_are_sorted(markets);
        super::laws::listed_all_is_sound(
            crate::lists::sorted(markets, super::listed_before()),
        );
    }
}

/// Selecting the market that is shown, in whatever width, keeps its quote. Selecting
/// another begins a quote of that market's listing, which knows nothing yet.
pub proof fn selections_turn_the_quote(
    state: State,
    symbol: Seq<char>,
    timeframe: Timeframe,
    now: u64,
)
    requires
        state.phase == Phase::Waiting,
    ensures
        ({
            let after = state.stepped(Answer::Select { symbol, timeframe }, now).state;
            &&& after.symbol == symbol && after.timeframe == timeframe
            &&& after.series == state.series && after.listings == state.listings
            &&& after.connected == state.connected
            &&& symbol == state.symbol ==> after.live == state.live
            &&& symbol != state.symbol ==> {
                &&& after.live.mark is None && after.live.mid is None && after.live.index is None
                    && after.live.trades.len() == 0
                &&& after.live.book.bids.len() == 0 && after.live.book.asks.len() == 0
                    && after.live.book.symbol == after.live.listing.symbol
                &&& after.live.fetched_at == now
                &&& listing_of(state.listings, symbol) matches Some(listing) ==> after.live.listing
                    == listing
                &&& listing_of(state.listings, symbol) is None ==> after.live.listing
                    == Listing::placeholder(symbol)
            }
        }),
{
}

/// What is asked of the cache, of the exchange and of the stream is asked of the
/// selected market in the selected width, and 720 bars at most.
pub proof fn requests_are_of_the_selection(state: State)
    ensures
        state.demand() matches Demand::LoadCandles { symbol, timeframe, limit } ==> {
            &&& symbol == state.symbol && timeframe == state.timeframe && limit == 720
            &&& state.phase is StartCached || state.phase is SelectCached
        },
        state.demand() matches Demand::FetchCandles { symbol, timeframe, limit } ==> {
            &&& symbol == state.symbol && timeframe == state.timeframe && limit == 720
            &&& state.phase is StartFetched || state.phase is SelectFetched
        },
        state.demand() matches Demand::Connect { symbol, timeframe } ==> {
            &&& symbol == state.symbol && timeframe == state.timeframe
            &&& state.phase is StartSocket || state.phase is Connecting
        },
        state.demand() matches Demand::Select { symbol, timeframe } ==> {
            &&& symbol == state.symbol && timeframe == state.timeframe
            &&& state.phase is SelectSocket
        },
        state.demand() is FetchMarkets ==> state.phase is StartMarkets || state.phase is Refreshing,
        state.demand() is Poll ==> state.phase is Polling,
        state.demand() is Wait ==> state.phase is Waiting,
        state.demand() is Stop ==> state.phase is Stopped,
{
}

/// The feed begins with Solana in minutes, without listings and bars, and with three
/// markets once it has tried to connect.
pub proof fn feed_begins_with_solana(now: u64, result: Result<(), Seq<char>>, later: u64)
    ensures
        ({
            let state = State::initial(now);
            let after = state.stepped(Answer::Connected(result), later);
            &&& state.symbol == "SOL"@ && state.timeframe == Timeframe::OneMinute
            &&& state.series.len() == 0 && state.listings.len() == 0
            &&& state.backoff == 1_000_000_000
            &&& state.demand() == (Demand::Connect {
                symbol: "SOL"@,
                timeframe: Timeframe::OneMinute,
            })
            &&& after.state.connected == result is Ok
            &&& after.state.listings.len() == 3 && after.state.listings[0].symbol == "SOL"@
                && after.state.listings[1].symbol == "BTC"@ && after.state.listings[2].symbol
                == "ETH"@
            &&& after.events.len() == 1 && after.events[0] == Event::Markets(after.state.listings)
            &&& after.state.demand() == (Demand::LoadCandles {
                symbol: "SOL"@,
                timeframe: Timeframe::OneMinute,
                limit: 720,
            })
        }),
{
    assert(default_listings().len() == 3);
}

/// A failed attempt to connect doubles the time to the next one, as far as half a
/// minute; a success, or any message, brings it back to a second.
pub proof fn attempts_grow_rare(state: State, now: u64, error: Seq<char>)
    requires
        state.phase == Phase::Connecting,
    ensures
        ({
            let failed = state.stepped(Answer::Connected(Err(error)), now);
            let done = state.stepped(Answer::Connected(Ok(())), now);
            &&& state.backoff <= 15_000_000_000 ==> failed.state.backoff == 2 * state.backoff
            &&& state.backoff > 15_000_000_000 ==> failed.state.backoff == 30_000_000_000
            &&& failed.state.connected == state.connected
            &&& failed.events.len() >= 1 && failed.events[0] == Event::Error(error)
            &&& done.state.backoff == 1_000_000_000
            &&& done.state.connected
        }),
{
}

/// The markets are asked for again no sooner than two minutes after the last time, and
/// not in a pause.
proof fn lemma_markets_in_time(state: State, dirty: bool, now: u64)
    ensures
        ({
            let after = state.after_stream(dirty, now).0;
            let due = now >= state.last_markets + 120_000_000_000 && now
                >= state.rest_cooldown_until;
            &&& due ==> after.phase == (Phase::Refreshing { dirty }) && after.last_markets == now
            &&& !due ==> after.phase == Phase::Waiting && after.last_markets == state.last_markets
            &&& after.last_ws_attempt == state.last_ws_attempt
        }),
{
}

/// A wait without a command is followed by a look at the stream where it is
/// connected: up to 32 messages are taken. Where it is not, the feed tries to connect
/// once the time between attempts has gone by, and no sooner. Until then it asks for
/// the markets every two minutes, but not in a pause.
#[verifier::rlimit(40)]
pub proof fn waits_are_followed(state: State, now: u64)
    requires
        state.phase == Phase::Waiting,
        state.backoff > 0,
    ensures
        ({
            let after = state.stepped(Answer::Quiet, now).state;
            let due = now >= state.last_markets + 120_000_000_000 && now
                >= state.rest_cooldown_until;
            &&& state.connected ==> after.phase == (Phase::Polling { left: 32, dirty: false })
            &&& !state.connected && now >= state.last_ws_attempt + state.backoff ==> after.phase
                == Phase::Connecting && after.last_ws_attempt == now
            &&& !state.connected && now < state.last_ws_attempt + state.backoff ==> {
                &&& after.last_ws_attempt == state.last_ws_attempt
                &&& due ==> after.phase == (Phase::Refreshing { dirty: false })
                    && after.last_markets == now
                &&& !due ==> after.phase == Phase::Waiting && after.last_markets
                    == state.last_markets
            }
        }),
{
    lemma_markets_in_time(state, false, now);
    let next = state.after_stream(false, now).0;
    assert(state.stepped(Answer::Quiet, now).state == state.rested(now).0) by {
        assert(state.phase is Waiting);
    }
    if !state.connected && now < state.last_ws_attempt + state.backoff {
        assert(state.rested(now).0 == next);
    }
}

/// A message is heard by the feed, which then looks at the stream again, one message
/// less, until there is none left; a broken stream is told and counts as not connected.
pub proof fn polls_count_down(
    state: State,
    left: u32,
    dirty: bool,
    message: Message,
    error: Seq<char>,
    now: u64,
)
    requires
        state.phase == (Phase::Polling { left, dirty }),
        left > 1,
    ensures
        ({
            let some = state.stepped(Answer::Polled(Ok(Some(message))), now);
            let broken = state.stepped(Answer::Polled(Err(error)), now);
            let heard = state.heard(message, now);
            &&& some.state.phase == (Phase::Polling {
                left: (left - 1) as u32,
                dirty: dirty || heard.1,
            })
            &&& some.state.live == heard.0.live && some.state.listings == heard.0.listings
                && some.state.series == heard.0.series
            &&& some.state.markets_dirty == (state.markets_dirty || heard.2)
            &&& some.save == heard.3
            &&& some.events.len() == 0
            &&& some.state.backoff == 1_000_000_000
            &&& !broken.state.connected
            &&& broken.events.len() >= 1 && broken.events[0] == Event::Error(error)
        }),
{
}

/// At the end of a round the desk is told the markets where they have changed, and the
/// selected market where it has.
pub proof fn rounds_tell_what_changed(state: State, dirty: bool)
    ensures
        ({
            let (after, told) = state.wrapped_up(dirty);
            &&& told.len() == (if state.markets_dirty {
                1int
            } else {
                0
            }) + (if dirty {
                1int
            } else {
                0
            })
            &&& state.markets_dirty ==> told[0] is Markets && told[0]->Markets_0.to_multiset()
                == state.listings.to_multiset()
            &&& dirty ==> told.last() == Event::Desk(
                state.live.snapshot(state.timeframe, state.bars()),
            )
            &&& !after.markets_dirty && after.phase == Phase::Waiting
            &&& after.live == state.live && after.listings == state.listings && after.series
                == state.series
        }),
{
    super::laws::markets_are_sorted(state.listings);
}

/// The selected market takes over its listing, and all else of its quote stays, when
/// the beginning ends and whenever new markets come. At the beginning the open
/// interest is the listing's where that is above zero.
pub proof fn listings_reach_the_quote(
    state: State,
    dirty: bool,
    result: Result<Seq<Listing>, Refusal>,
    now: u64,
)
    requires
        state.valid(),
    ensures
        ({
            let begun = state.started().0;
            &&& listing_of(state.listings, state.symbol) matches Some(listing) ==> {
                &&& begun.live.listing == listing
                &&& listing.open_interest.finite() ==> begun.live.open_interest
                    == if listing.open_interest.value() > 0 {
                    Some(listing.open_interest)
                } else {
                    None
                }
            }
            &&& begun.live.mark == state.live.mark && begun.live.mid == state.live.mid
                && begun.live.book == state.live.book && begun.live.trades == state.live.trades
            &&& state.started().1.len() == 1 && state.started().1[0] == begun.current()
        }),
        ({
            let after = state.refreshed(dirty, result, now).0;
            &&& listing_of(after.listings, state.symbol) matches Some(listing)
                ==> after.live.listing == listing
            &&& listing_of(after.listings, state.symbol) is None ==> after.live == state.live
            &&& after.live.mark == state.live.mark && after.live.mid == state.live.mid
                && after.live.book == state.live.book && after.live.trades == state.live.trades
                && after.live.open_interest == state.live.open_interest
        }),
{
    if let Some(listing) = listing_of(state.listings, state.symbol) {
        if listing.open_interest.finite() {
            lemma_order(listing.open_interest, listing.open_interest);
        }
    }
}

/// The time between attempts doubles as far as half a minute, and a pause counts
/// seconds of a thousand million nanoseconds.
pub proof fn times_are_counted(backoff: u64, now: u64, seconds: u64)
    ensures
        doubled(backoff) <= 30_000_000_000,
        backoff <= 15_000_000_000 ==> doubled(backoff) == 2 * backoff,
        now + seconds * 1_000_000_000 <= u64::MAX ==> after_seconds(now, seconds) == now + seconds
            * 1_000_000_000,
        after_seconds(now, seconds) >= now,
        super::machine::COMMAND_WAIT == 80 * super::machine::POLL_WAIT,
        super::machine::POLL_WAIT * 1000 == 1_000_000_000,
{
}

/// A selection whose bars are held goes to the stream where it is connected, and is
/// shown at once where it is not. One without bars looks for them in the cache first.
pub proof fn selections_are_shown(state: State, symbol: Seq<char>, timeframe: Timeframe, now: u64)
    requires
        state.phase == Phase::Waiting,
    ensures
        ({
            let after = state.stepped(Answer::Select { symbol, timeframe }, now);
            let held = bars_of(state.series, symbol, timeframe).len() > 0;
            &&& after.save is None
            &&& !held ==> after.state.phase == Phase::SelectCached && after.events.len() == 0
            &&& held && state.connected ==> after.state.phase == Phase::SelectSocket
                && after.events.len() == 0
            &&& held && !state.connected ==> after.state.phase == Phase::Waiting
                && after.events.len() == 1 && after.events[0] == after.state.current()
        }),
{
}

/// Once the stream has turned to the selected market, that is shown, and a stream that
/// did not turn counts as not connected.
pub proof fn turned_streams_are_shown(state: State, done: bool, now: u64)
    requires
        state.phase == Phase::SelectSocket,
    ensures
        ({
            let after = state.stepped(Answer::Selected(done), now);
            &&& after.state.connected == done
            &&& after.state.phase == Phase::Waiting
            &&& after.events.len() == 1 && after.events[0] == Event::Desk(
                state.live.snapshot(state.timeframe, state.bars()),
            )
            &&& after.state.live == state.live && after.state.series == state.series
                && after.save is None
        }),
{
}

/// The first attempt to connect sets the clocks of the feed, whatever comes of it.
pub proof fn first_attempt_sets_the_clocks(state: State, result: Result<(), Seq<char>>, now: u64)
    requires
        state.phase == Phase::StartSocket,
    ensures
        ({
            let after = state.stepped(Answer::Connected(result), now).state;
            &&& after.last_ws_attempt == now && after.last_markets == now
                && after.rest_cooldown_until == now
            &&& after.phase == Phase::StartCached
            &&& after.live == state.live && after.backoff == state.backoff
        }),
{
}

/// Bars that come of the exchange are merged into those that are held, and what comes
/// of that is kept in the cache. No bars, and a refusal, change no bar and keep none.
pub proof fn fetched_bars_are_merged(
    state: State,
    result: Result<Seq<Candle>, Refusal>,
    now: u64,
)
    ensures
        ({
            let (after, save) = state.seeded(result, now);
            &&& after.live == state.live && after.listings == state.listings
            &&& result matches Ok(incoming) ==> {
                &&& incoming.len() > 0 ==> after.bars() == merged(state.bars(), incoming)
                &&& incoming.len() > 0 ==> save is Some && save->0.symbol == state.symbol
                    && save->0.timeframe == state.timeframe && save->0.candles == after.bars()
                &&& incoming.len() == 0 ==> after == state && save is None
            }
            &&& result matches Err(error) ==> {
                &&& after.series == state.series && save is None
                &&& error is Failed ==> after == state
                &&& error is RateLimited && now + error->RateLimited_0.retry_after * 1_000_000_000
                    <= u64::MAX ==> after.rest_cooldown_until == now
                    + error->RateLimited_0.retry_after * 1_000_000_000
            }
        }),
{
    if let Ok(incoming) = result {
        stored_bars_are_there(
            state.series,
            Bars {
                symbol: state.symbol,
                timeframe: state.timeframe,
                candles: merged(state.bars(), incoming),
            },
            state.symbol,
            state.timeframe,
        );
    }
}

/// An empty cache sends the feed to the exchange, but not in a pause.
pub proof fn empty_caches_ask_the_exchange(state: State, now: u64)
    requires
        state.phase == Phase::StartCached || state.phase == Phase::SelectCached,
    ensures
        ({
            let after = state.stepped(Answer::Cached(seq![]), now).state;
            &&& now >= state.rest_cooldown_until && state.phase == Phase::StartCached ==> after.phase
                == Phase::StartFetched
            &&& now >= state.rest_cooldown_until && state.phase == Phase::SelectCached
                ==> after.phase == Phase::SelectFetched
            &&& now < state.rest_cooldown_until ==> !(after.phase is StartFetched) && !(after.phase
                is SelectFetched)
            &&& after.series == state.series
        }),
{
}

/// After its first bars the feed asks for the markets, and in a pause it begins without
/// them. After a selection's bars it turns the stream, where it is connected, and else
/// shows the market.
pub proof fn bars_are_followed(state: State, now: u64)
    ensures
        now >= state.rest_cooldown_until ==> state.after_first_bars(now).0.phase
            == Phase::StartMarkets && state.after_first_bars(now).1.len() == 0,
        now < state.rest_cooldown_until ==> state.after_first_bars(now).0.phase == Phase::Waiting
            && state.after_first_bars(now).1.len() == 1,
        state.connected ==> state.after_selected_bars().0.phase == Phase::SelectSocket
            && state.after_selected_bars().1.len() == 0,
        !state.connected ==> state.after_selected_bars().0.phase == Phase::Waiting
            && state.after_selected_bars().1.len() == 1 && state.after_selected_bars().1[0]
            == Event::Desk(state.live.snapshot(state.timeframe, state.bars())),
{
}

/// Markets that list the selected one have it shown again, with its listing; a round
/// that changed it is shown in any case.
pub proof fn refreshes_are_shown(
    state: State,
    dirty: bool,
    result: Result<Seq<Listing>, Refusal>,
    now: u64,
)
    ensures
        ({
            let (after, told) = state.refreshed(dirty, result, now);
            &&& listing_of(after.listings, state.symbol) is Some || dirty ==> told.len() > 0
                && told.last() == Event::Desk(after.live.snapshot(after.timeframe, after.bars()))
            &&& after.phase == Phase::Waiting
            &&& after.symbol == state.symbol && after.series == state.series
        }),
{
    let after = state.with_markets(result, now).0;
    assert(after.symbol == state.symbol && after.series == state.series);
    match listing_of(after.listings, after.symbol) {
        Some(listing) => {
            let next = State { live: Quote { listing, ..after.live }, ..after };
            rounds_tell_what_changed(next, true);
        },
        None => {
            rounds_tell_what_changed(after, dirty);
        },
    }
}

} // verus!
