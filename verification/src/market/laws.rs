//! What a snapshot, a change and a middle are.

use super::{
    candles_change, midway, percent, percent_since, BookLevel, Candle, Listing, Quote, EPSILON,
    HUNDRED, TWO,
};
use crate::double::arithmetic::UNIT_EXPONENT;
use crate::double::laws::{product_is_near, quotient_is_near, size_of, sum_is_near, unit};
use crate::double::{rounding, Double};
use crate::timeframe::Timeframe;
use vstd::arithmetic::power2::*;
use vstd::prelude::*;

verus! {

/// A number is less than another where its value is.
pub proof fn lemma_order(a: Double, b: Double)
    requires
        a.finite(),
        b.finite(),
    ensures
        a.below(b) == (a.value() < b.value()),
        a.at_most(b) == (a.value() <= b.value()),
        a.positive() == (a.value() > 0),
        a.same(b) == (a.value() == b.value()),
{
    rounding::lemma_magnitude_of(0, 0);
    rounding::lemma_powers();
    rounding::lemma_magnitude_grows(0, a.code());
    rounding::lemma_magnitude_grows(0, b.code());
    if a.code() <= b.code() {
        rounding::lemma_magnitude_grows(a.code(), b.code());
    } else {
        rounding::lemma_magnitude_grows(b.code(), a.code());
    }
}

pub proof fn lemma_difference(a: Double, b: Double)
    requires
        a.difference(b).finite(),
    ensures
        a.finite(),
        b.finite(),
        2 * size_of(a.difference(b).value() - (a.value() - b.value())) <= a.difference(b).gap(),
{
    assert(b.negation().code() == b.code() && b.negation().negative() == !b.negative());
    sum_is_near(a, b.negation());
}

/// What a hundred is, and what two is.
proof fn lemma_constants()
    ensures
        (Double { bits: HUNDRED }).value() == 100 * unit(),
        (Double { bits: TWO }).value() == 2 * unit(),
        (Double { bits: TWO }).finite() && !(Double { bits: TWO }).zero(),
{
    crate::format::laws::limits_are_round();
    rounding::lemma_powers();
    assert(TWO as int / 0x10_0000_0000_0000 == 1024 && TWO as int % 0x10_0000_0000_0000 == 0);
    lemma_pow2_adds(52, 1023);
    lemma_pow2_unfold(1075);
    assert((Double { bits: TWO }).code() == TWO);
    assert((Double { bits: HUNDRED }).code() == HUNDRED);
}

/// A change in percent, times what it is counted from, is a hundred times the
/// difference, but for the rounding of the difference, the quotient and the
/// product.
pub proof fn percent_is_of_the_first(from: Double, to: Double)
    requires
        percent(from, to).finite(),
        from.finite(),
        !from.zero(),
    ensures
        ({
            let way = to.difference(from);
            let part = way.quotient(from);
            2 * size_of(
                percent(from, to).value() * from.value() - 100 * (to.value() - from.value())
                    * unit(),
            ) <= percent(from, to).gap() * size_of(from.value()) + 100 * part.gap() * size_of(
                from.value(),
            ) + 100 * way.gap() * unit()
        }),
{
    let way = to.difference(from);
    let part = way.quotient(from);
    let result = percent(from, to);
    let hundred = Double { bits: HUNDRED };
    let u = unit();
    lemma_pow2_pos(UNIT_EXPONENT as nat);
    lemma_constants();
    product_is_near(part, hundred);
    quotient_is_near(way, from);
    lemma_difference(to, from);
    let r = result.value();
    let q = part.value();
    let f = from.value();
    let d = to.value() - f;
    let w = way.value();
    assert(2 * size_of(r - 100 * q) <= result.gap()) by {
        assert(r * u - q * (100 * u) == (r - 100 * q) * u) by (nonlinear_arith);
        assert(2 * size_of(r - 100 * q) <= result.gap()) by (nonlinear_arith)
            requires
                2 * size_of((r - 100 * q) * u) <= result.gap() * u,
                u > 0,
        ;
    }
    let a = r - 100 * q;
    let b = q * f - w * u;
    let c = w - d;
    assert(r * f - 100 * d * u == a * f + 100 * b + 100 * (c * u)) by (nonlinear_arith)
        requires
            a == r - 100 * q,
            b == q * f - w * u,
            c == w - d,
    ;
    assert(2 * size_of(a * f) <= result.gap() * size_of(f)) by (nonlinear_arith)
        requires
            2 * size_of(a) <= result.gap(),
    ;
    assert(2 * size_of(c * u) <= way.gap() * u) by (nonlinear_arith)
        requires
            2 * size_of(c) <= way.gap(),
            u > 0,
    ;
    assert(100 * part.gap() * size_of(f) == 100 * (part.gap() * size_of(f))) by (nonlinear_arith);
    assert(100 * way.gap() * u == 100 * (way.gap() * u)) by (nonlinear_arith);
}

/// A change since the day before is there where both prices are and the older one
/// is more than a rounding error away from nothing.
pub proof fn change_needs_both(prev: Option<Double>, price: Option<Double>)
    ensures
        percent_since(prev, price) is Some ==> prev is Some && price is Some,
        percent_since(prev, price) matches Some(change) ==> change == percent(prev->0, price->0),
        prev is Some && price is Some && prev->0.finite() && size_of(prev->0.value()) * pow2(52)
            > unit() ==> percent_since(prev, price) is Some,
        prev is Some && prev->0.finite() && size_of(prev->0.value()) * pow2(52) <= unit()
            ==> percent_since(prev, price) is None,
{
    if prev is Some && prev->0.finite() {
        let x = prev->0.absolute();
        let limit = Double { bits: EPSILON };
        assert(x.code() == prev->0.code() && !x.negative());
        rounding::lemma_powers();
        assert(EPSILON as int / 0x10_0000_0000_0000 == 971 && EPSILON as int
            % 0x10_0000_0000_0000 == 0);
        lemma_pow2_adds(52, 970);
        lemma_pow2_adds(1022, 52);
        assert(limit.code() == EPSILON);
        assert(limit.value() * pow2(52) == unit());
        lemma_order(limit, x);
        rounding::lemma_magnitude_step(prev->0.code());
        assert(x.value() == size_of(prev->0.value()));
        lemma_pow2_pos(52);
        let v = x.value();
        let l = limit.value();
        let p = pow2(52) as int;
        assert((l < v) == (l * p < v * p)) by (nonlinear_arith)
            requires
                p > 0,
        ;
    }
}

/// The change over bars goes from the first open to the last close.
pub proof fn bars_change_from_first_to_last(candles: Seq<Candle>)
    ensures
        candles_change(candles) matches Some(change) ==> candles.len() > 0 && change == percent(
            candles[0].open,
            candles[candles.len() - 1].close,
        ),
        candles.len() == 0 ==> candles_change(candles) is None,
{
}

/// The middle is as far from the best bid as from the best ask, but for rounding;
/// with one side alone it is that side's best.
pub proof fn middle_lies_between(bids: Seq<BookLevel>, asks: Seq<BookLevel>)
    ensures
        bids.len() == 0 && asks.len() == 0 ==> midway(bids, asks) is None,
        bids.len() > 0 && asks.len() == 0 ==> midway(bids, asks) == Some(bids[0].price),
        bids.len() == 0 && asks.len() > 0 ==> midway(bids, asks) == Some(asks[0].price),
        bids.len() > 0 && asks.len() > 0 ==> midway(bids, asks) is Some,
        bids.len() > 0 && asks.len() > 0 && midway(bids, asks)->0.finite() ==> {
            let sum = bids[0].price.sum(asks[0].price);
            let mid = midway(bids, asks)->0;
            2 * size_of(2 * mid.value() - (bids[0].price.value() + asks[0].price.value())) <= 2
                * mid.gap() + sum.gap()
        },
{
    if bids.len() > 0 && asks.len() > 0 && midway(bids, asks)->0.finite() {
        let sum = bids[0].price.sum(asks[0].price);
        let two = Double { bits: TWO };
        let mid = sum.quotient(two);
        let u = unit();
        lemma_pow2_pos(UNIT_EXPONENT as nat);
        lemma_constants();
        quotient_is_near(sum, two);
        sum_is_near(bids[0].price, asks[0].price);
        let m = mid.value();
        let s = sum.value();
        assert(m * (2 * u) - s * u == (2 * m - s) * u) by (nonlinear_arith);
        assert(2 * size_of(2 * m - s) <= 2 * mid.gap()) by (nonlinear_arith)
            requires
                2 * size_of((2 * m - s) * u) <= mid.gap() * (2 * u),
                u > 0,
        ;
    }
}

/// A snapshot shows the quote: each of its parts is the quote's part of that name.
pub proof fn snapshot_shows_the_quote(quote: Quote, timeframe: Timeframe, candles: Seq<Candle>)
    ensures
        ({
            let shown = quote.snapshot(timeframe, candles);
            &&& shown.symbol == quote.listing.symbol
            &&& shown.name == quote.listing.name
            &&& shown.status == quote.listing.status
            &&& shown.isolated_only == quote.listing.isolated_only
            &&& shown.taker_fee == Some(quote.listing.taker_fee)
            &&& shown.timeframe == timeframe
            &&& shown.candles == candles
            &&& shown.index == quote.index
            &&& shown.prev_day == quote.prev_day
            &&& shown.volume_24h == quote.volume_24h
            &&& shown.funding_pct == quote.funding_pct
            &&& shown.book == quote.book
            &&& shown.trades == quote.trades
            &&& shown.fetched_at == quote.fetched_at
        }),
{
}

/// The mark is the quote's, or else its mid, or else the book's; the mid is the
/// quote's, or else the book's.
pub proof fn snapshot_falls_back(quote: Quote, timeframe: Timeframe, candles: Seq<Candle>)
    ensures
        ({
            let shown = quote.snapshot(timeframe, candles);
            &&& quote.mark is Some ==> shown.mark == quote.mark
            &&& quote.mark is None && quote.mid is Some ==> shown.mark == quote.mid
            &&& quote.mark is None && quote.mid is None ==> shown.mark == quote.book.mid
            &&& quote.mid is Some ==> shown.mid == quote.mid
            &&& quote.mid is None ==> shown.mid == quote.book.mid
            &&& quote.open_interest is Some ==> shown.open_interest == quote.open_interest
            &&& quote.open_interest is None && quote.listing.open_interest.positive()
                ==> shown.open_interest == Some(quote.listing.open_interest)
            &&& quote.open_interest is None && !quote.listing.open_interest.positive()
                ==> shown.open_interest is None
            &&& quote.listing.max_leverage.positive() ==> shown.max_leverage == Some(
                quote.listing.max_leverage,
            )
            &&& !quote.listing.max_leverage.positive() ==> shown.max_leverage is None
        }),
{
}

/// The best prices are the first of each side, bids for the bid and asks for the
/// ask.
pub proof fn snapshot_shows_the_best(quote: Quote, timeframe: Timeframe, candles: Seq<Candle>)
    ensures
        ({
            let shown = quote.snapshot(timeframe, candles);
            &&& quote.book.bids.len() > 0 ==> shown.best_bid == Some(quote.book.bids[0].price)
            &&& quote.book.bids.len() == 0 ==> shown.best_bid is None
            &&& quote.book.asks.len() > 0 ==> shown.best_ask == Some(quote.book.asks[0].price)
            &&& quote.book.asks.len() == 0 ==> shown.best_ask is None
        }),
{
}

/// The day's change is the mark less the day before, and in percent the one that is
/// told, or else the one since the day before, or else the one over the bars.
pub proof fn snapshot_shows_the_change(quote: Quote, timeframe: Timeframe, candles: Seq<Candle>)
    ensures
        ({
            let shown = quote.snapshot(timeframe, candles);
            &&& shown.change_24h is Some <==> shown.mark is Some && shown.prev_day is Some
            &&& shown.change_24h matches Some(change) ==> (change.finite() ==> 2 * size_of(
                change.value() - (shown.mark->0.value() - shown.prev_day->0.value()),
            ) <= change.gap())
            &&& quote.change_24h_pct is Some ==> shown.change_24h_pct == quote.change_24h_pct
            &&& quote.change_24h_pct is None && percent_since(shown.prev_day, shown.mark) is Some
                ==> shown.change_24h_pct == percent_since(shown.prev_day, shown.mark)
            &&& quote.change_24h_pct is None && percent_since(shown.prev_day, shown.mark) is None
                ==> shown.change_24h_pct == candles_change(candles)
        }),
{
    let shown = quote.snapshot(timeframe, candles);
    if let Some(change) = shown.change_24h {
        if change.finite() {
            lemma_difference(shown.mark->0, shown.prev_day->0);
        }
    }
}

/// A new quote knows its listing and nothing else; a placeholder knows its symbol.
pub proof fn new_quotes_know_nothing(listing: Listing, symbol: Seq<char>, now: u64)
    ensures
        ({
            let quote = listing.quote(now);
            &&& quote.listing == listing
            &&& quote.fetched_at == now
            &&& quote.book.symbol == listing.symbol
            &&& quote.book.bids.len() == 0 && quote.book.asks.len() == 0 && quote.trades.len() == 0
            &&& quote.mark is None && quote.index is None && quote.mid is None && quote.prev_day is
                None && quote.book.mid is None
            &&& quote.funding_pct is None && quote.open_interest is None && quote.volume_24h is None
                && quote.change_24h_pct is None
        }),
        ({
            let known = Listing::placeholder(symbol);
            &&& known.symbol == symbol
            &&& known.name == symbol + "-PERP"@
            &&& known.status == "unknown"@
            &&& !known.isolated_only && !known.is_commodity && known.mark is None
            &&& known.max_leverage.value() == 0 && known.taker_fee.value() == 0
                && known.maker_fee.value() == 0 && known.open_interest.value() == 0
            &&& known.base_lots_decimals == 0
        }),
{
    rounding::lemma_magnitude_of(0, 0);
    rounding::lemma_powers();
}

/// Bars that are equal are equal in every part.
pub proof fn equal_bars_agree(a: Candle, b: Candle)
    requires
        vstd::std_specs::cmp::PartialEqSpec::eq_spec(&a, &b),
    ensures
        a.time_ms == b.time_ms,
        a.open.value() == b.open.value() && !a.open.nan(),
        a.high.value() == b.high.value() && !a.high.nan(),
        a.low.value() == b.low.value() && !a.low.nan(),
        a.close.value() == b.close.value() && !a.close.nan(),
        a.volume.value() == b.volume.value() && !a.volume.nan(),
        (a.volume_quote is Some) == (b.volume_quote is Some),
        a.volume_quote is Some ==> a.volume_quote->0.value() == b.volume_quote->0.value(),
        a.trade_count == b.trade_count,
{
    rounding::lemma_magnitude_of(0, 0);
    rounding::lemma_powers();
}

} // verus!
