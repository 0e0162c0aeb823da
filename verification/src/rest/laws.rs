//! Which part of a reply says what.

use super::{
    candles_address, header_pause, level_of, levels_of, lot_scale, preview, refusal, ApiCandle,
    ApiMarket, ApiOrderbook, RateLimit, Refusal,
};
use crate::double::convert::{ONE_BITS, TEN_BITS};
use crate::double::decimal::ten_to;
use crate::double::laws::{quotient_is_near, size_of, unit, whole_products_are_exact};
use crate::double::parse::parsed_double;
use crate::double::{rounding, Double, BINADE};
use crate::json::Tree;
use crate::lists::kept_piece_by_piece;
use crate::market::{midway, Book, Quote};
use crate::text;
use crate::text::laws::digits_say_the_number;
use crate::timeframe::Timeframe;
use vstd::arithmetic::power2::*;
use vstd::prelude::*;

verus! {

/// A bar takes each number from the part of that name; it is there where its time
/// and its four prices are.
pub proof fn bar_says_its_parts(raw: ApiCandle)
    ensures
        raw.bar() is Some <==> raw.time is Some && raw.open is Some && raw.high is Some && raw.low is
            Some && raw.close is Some,
        raw.bar() matches Some(bar) ==> {
            &&& raw.time == Some(bar.time_ms)
            &&& raw.open == Some(bar.open)
            &&& raw.high == Some(bar.high)
            &&& raw.low == Some(bar.low)
            &&& raw.close == Some(bar.close)
            &&& raw.volume matches Some(volume) ==> bar.volume == volume
            &&& raw.volume is None ==> bar.volume.value() == 0
            &&& bar.volume_quote == raw.volume_quote
            &&& bar.trade_count == raw.trade_count
        },
{
    rounding::lemma_magnitude_of(0, 0);
    rounding::lemma_powers();
}

/// A level is a pair of price and size, in this order; it is one where both are
/// finite and the size is more than nothing.
pub proof fn level_says_its_pair(pair: [Double; 2])
    ensures
        level_of(pair) is Some <==> pair@[0].finite() && pair@[1].finite() && pair@[1].value() > 0,
        level_of(pair) matches Some(level) ==> level.price == pair@[0] && level.size == pair@[1],
{
    if pair@[1].finite() {
        crate::market::laws::lemma_order(pair@[1], pair@[1]);
    }
}

/// Levels come in the order of their pairs; pairs that are none are left out.
pub proof fn levels_come_in_order(a: Seq<[Double; 2]>, b: Seq<[Double; 2]>, pair: [Double; 2])
    ensures
        levels_of(a + b) == levels_of(a) + levels_of(b),
        level_of(pair) matches Some(level) ==> levels_of(seq![pair]) == seq![level],
        level_of(pair) is None ==> levels_of(seq![pair]).len() == 0,
{
    kept_piece_by_piece(a, b, pair, |pair: [Double; 2]| level_of(pair));
}

/// A book has the bids of the bids and the asks of the asks.
pub proof fn book_says_its_sides(raw: ApiOrderbook)
    ensures
        raw.book().bids == levels_of(raw.bids@),
        raw.book().asks == levels_of(raw.asks@),
        raw.book().mid == midway(levels_of(raw.bids@), levels_of(raw.asks@)),
        raw.symbol matches Some(symbol) ==> raw.book().symbol == symbol@,
        raw.symbol is None ==> raw.book().symbol.len() == 0,
{
}

/// A listing takes each of its parts from the reply's part of that name, or what
/// stands for its absence.
pub proof fn listing_says_its_parts(market: ApiMarket)
    ensures
        ({
            let listing = market.listing();
            &&& listing.symbol == market.symbol@
            &&& market.market_status matches Some(status) ==> listing.status == status@
            &&& market.market_status is None ==> listing.status == "unknown"@
            &&& market.isolated_only matches Some(flag) ==> listing.isolated_only == flag
            &&& market.isolated_only is None ==> !listing.isolated_only
            &&& market.taker_fee matches Some(fee) ==> listing.taker_fee == fee
            &&& market.taker_fee is None ==> listing.taker_fee.value() == 0
            &&& market.maker_fee matches Some(fee) ==> listing.maker_fee == fee
            &&& market.maker_fee is None ==> listing.maker_fee.value() == 0
            &&& market.base_lots_decimals matches Some(decimals) ==> listing.base_lots_decimals
                == decimals
            &&& market.base_lots_decimals is None ==> listing.base_lots_decimals == 0
            &&& listing.mark is None
        }),
{
    rounding::lemma_magnitude_of(0, 0);
    rounding::lemma_powers();
}

/// The leverage is the first tier's, the name is the one of the metadata unless it
/// is empty, and a commodity is what says so.
pub proof fn listing_looks_inside(market: ApiMarket)
    ensures
        ({
            let listing = market.listing();
            &&& market.leverage_tiers@.len() > 0 ==> {
                &&& market.leverage_tiers@[0].max_leverage matches Some(most)
                    ==> listing.max_leverage == most
                &&& market.leverage_tiers@[0].max_leverage is None ==> listing.max_leverage.value()
                    == 0
            }
            &&& market.leverage_tiers@.len() == 0 ==> listing.max_leverage.value() == 0
            &&& market.metadata is None ==> listing.name == market.symbol@
            &&& market.metadata matches Some(metadata) ==> {
                &&& metadata.name matches Some(name) ==> listing.name == if name@.len() > 0 {
                    name@
                } else {
                    market.symbol@
                }
                &&& metadata.name is None ==> listing.name == market.symbol@
            }
            &&& listing.is_commodity ==> market.commodity_metadata is Some
            &&& market.commodity_metadata matches Some(value) ==> listing.is_commodity == (
            value.tree().field("isCommodity"@) == Some(Tree::Bool(true)))
        }),
{
    rounding::lemma_magnitude_of(0, 0);
    rounding::lemma_powers();
}

/// Open interest is the lots, read as a number, divided by the scale of the
/// decimals: times the scale it comes to the lots, but for the quotient's rounding.
/// Without lots there is none.
pub proof fn open_interest_is_lots_scaled(market: ApiMarket)
    ensures
        market.stats_snapshot is None ==> market.listing().open_interest.value() == 0,
        market.stats_snapshot matches Some(stats) ==> (
        stats.open_interest_base_lots matches Some(lots) ==> (parsed_double(
            lots@,
        ) matches Some(number) ==> {
            let scale = lot_scale(market.listing().base_lots_decimals);
            let shown = market.listing().open_interest;
            shown.finite() && scale.finite() && !scale.zero() ==> 2 * size_of(
                shown.value() * scale.value() - number.value() * unit(),
            ) <= shown.gap() * size_of(scale.value())
        })),
        lot_scale(0).value() == unit(),
{
    rounding::lemma_magnitude_of(0, 0);
    rounding::lemma_powers();
    crate::format::laws::limits_are_round();
    if let Some(stats) = market.stats_snapshot {
        if let Some(lots) = stats.open_interest_base_lots {
            if let Some(number) = parsed_double(lots@) {
                let scale = lot_scale(market.listing().base_lots_decimals);
                let shown = market.listing().open_interest;
                assert(shown == number.quotient(scale));
                if shown.finite() && scale.finite() && !scale.zero() {
                    quotient_is_near(number, scale);
                }
            }
        }
    }
}

/// `b` times itself, `n` times.
spec fn to_the(b: int, n: nat) -> int
    decreases n,
{
    if n == 0 {
        1
    } else {
        b * to_the(b, (n - 1) as nat)
    }
}

proof fn lemma_to_the(b: int, n: nat)
    requires
        b >= 1,
    ensures
        to_the(b, n) >= 1,
        n > 0 ==> to_the(b, n) >= b,
        to_the(b * b, n) == to_the(b, 2 * n),
        to_the(b, n + 1) == b * to_the(b, n),
    decreases n,
{
    assert(b * b >= 1) by (nonlinear_arith)
        requires
            b >= 1,
    ;
    if n > 0 {
        let less = (n - 1) as nat;
        lemma_to_the(b, less);
        let x = to_the(b, less);
        assert(b * x >= b) by (nonlinear_arith)
            requires
                x >= 1,
                b >= 1,
        ;
        let y = to_the(b, (2 * n - 2) as nat);
        assert(to_the(b, (2 * n - 1) as nat) == b * y);
        assert(to_the(b, (2 * n) as nat) == b * (b * y));
        assert((b * b) * y == b * (b * y)) by (nonlinear_arith);
    }
}

/// Powers of whole numbers are exact as long as they stay below `2^53`.
proof fn lemma_raised(result: Double, base: Double, n: nat, a: int, b: int)
    requires
        result.finite() && base.finite(),
        result.value() == a * unit(),
        base.value() == b * unit(),
        a >= 1,
        b >= 1,
        a * to_the(b, n) < 2 * BINADE,
    ensures
        Double::raised(result, base, n).finite(),
        Double::raised(result, base, n).value() == a * to_the(b, n) * unit(),
    decreases n,
{
    if n == 0 {
        assert(a * 1 == a);
    } else {
        let half = n / 2;
        lemma_to_the(b, half);
        lemma_to_the(b, (2 * half) as nat);
        lemma_to_the(b, n);
        let p = to_the(b, (2 * half) as nat);
        let next = if n % 2 == 1 {
            result.product(base)
        } else {
            result
        };
        let c = if n % 2 == 1 {
            a * b
        } else {
            a
        };
        assert(c >= 1) by (nonlinear_arith)
            requires
                a >= 1,
                b >= 1,
                c == a * b || c == a,
        ;
        assert(c * p == a * to_the(b, n)) by {
            if n % 2 == 1 {
                assert(to_the(b, n) == b * p);
                assert(a * b * p == a * (b * p)) by (nonlinear_arith);
            } else {
                assert((2 * half) as nat == n);
            }
        }
        if n % 2 == 1 {
            assert(a * b <= a * to_the(b, n)) by (nonlinear_arith)
                requires
                    to_the(b, n) >= b,
                    a >= 1,
            ;
            whole_products_are_exact(result, base, a, b);
        }
        if half > 0 {
            assert(p >= b * b) by {
                lemma_to_the(b, (2 * half - 2) as nat);
                let x = to_the(b, (2 * half - 2) as nat);
                assert(to_the(b, (2 * half - 1) as nat) == b * x);
                assert(p == b * (b * x));
                assert(b * (b * x) >= b * b) by (nonlinear_arith)
                    requires
                        x >= 1,
                        b >= 1,
                ;
            }
            assert(b * b <= c * p) by (nonlinear_arith)
                requires
                    p >= b * b,
                    c >= 1,
                    b >= 1,
            ;
            whole_products_are_exact(base, base, b, b);
            assert(b * b >= 1) by (nonlinear_arith)
                requires
                    b >= 1,
            ;
            assert(to_the(b * b, half) == p);
            lemma_raised(next, base.product(base), half, c, b * b);
        } else {
            assert(p == 1);
            assert(Double::raised(next, base.product(base), 0) == next);
            assert(c * 1 == c);
        }
    }
}

/// The scale of decimals is ten to their number: exactly, up to fifteen of them.
pub proof fn scales_are_powers_of_ten(decimals: u32)
    requires
        decimals <= 15,
    ensures
        lot_scale(decimals).value() == ten_to(decimals as nat) * unit(),
        lot_scale(decimals).finite() && !lot_scale(decimals).zero(),
{
    let one = Double { bits: ONE_BITS };
    let ten = Double { bits: TEN_BITS };
    crate::format::laws::limits_are_round();
    rounding::lemma_powers();
    rounding::lemma_magnitude_of(0, 0);
    lemma2_to64();
    lemma_pow2_adds(32, 17);
    assert(ten.code() == TEN_BITS && one.code() == ONE_BITS);
    assert(TEN_BITS as int / 0x10_0000_0000_0000 == 1026 && TEN_BITS as int % 0x10_0000_0000_0000
        == 0x4_0000_0000_0000);
    lemma_pow2_adds(49, 1025);
    assert(Double::magnitude(TEN_BITS as int) == 10 * unit()) by {
        let p = pow2(1025) as int;
        assert(unit() == pow2(49) * p);
        assert(0x14_0000_0000_0000 * p == 10 * (0x2_0000_0000_0000 * p)) by (nonlinear_arith);
    }
    reveal_with_fuel(to_the, 17);
    reveal_with_fuel(ten_to, 17);
    assert(to_the(10, decimals as nat) == ten_to(decimals as nat)) by {
        lemma_same_power(decimals as nat);
    }
    lemma_power_bound(decimals as nat);
    lemma_raised(one, ten, decimals as nat, 1, 10);
    let t = ten_to(decimals as nat) as int;
    lemma_pow2_pos(1074);
    assert(t * unit() > 0) by (nonlinear_arith)
        requires
            t >= 1,
            unit() > 0,
    ;
}

proof fn lemma_same_power(n: nat)
    ensures
        to_the(10, n) == ten_to(n),
        ten_to(n) >= 1,
    decreases n,
{
    if n > 0 {
        lemma_same_power((n - 1) as nat);
    }
}

proof fn lemma_power_bound(n: nat)
    requires
        n <= 15,
    ensures
        ten_to(n) <= 1_000_000_000_000_000,
{
    reveal_with_fuel(ten_to, 17);
}

/// A pause is what the header asks for in whole seconds, within one and sixty, and
/// eight where it asks for nothing that can be read.
pub proof fn pauses_follow_the_header(header: Seq<char>)
    ensures
        header_pause(None) == 8,
        text::parsed_unsigned(header) is None ==> header_pause(Some(header)) == 8,
        text::parsed_unsigned(header) matches Some(seconds) ==> {
            &&& 1 <= seconds <= 60 ==> header_pause(Some(header)) == seconds
            &&& seconds < 1 ==> header_pause(Some(header)) == 1
            &&& seconds > 60 ==> header_pause(Some(header)) == 60
        },
{
}

/// A reply is good where its status is one of the two hundreds, a request for a
/// pause where it is 429, and else a failure that names the address and the status.
pub proof fn statuses_are_judged(url: Seq<char>, status: u16, header: Option<Seq<char>>)
    ensures
        refusal(url, status, header) is None <==> 200 <= status < 300,
        refusal(url, status, header) matches Some(refused) ==> match refused {
            Refusal::RateLimited(limit) => status == 429 && limit.retry_after == header_pause(
                header,
            ),
            Refusal::Failed(message) => status != 429 && message == "phoenix GET "@ + url
                + " returned "@ + text::digits(status as nat),
        },
        status == 429 ==> refusal(url, status, header) is Some && refusal(url, status, header)->0 is
            RateLimited,
{
    super::pause_is_bounded(header);
}

/// An error shows the first hundred and twenty characters of a body, on one line.
pub proof fn previews_are_short(body: Seq<char>, i: int)
    requires
        0 <= i < preview(body).len(),
    ensures
        preview(body).len() <= 120,
        body.len() <= 120 ==> preview(body).len() == body.len(),
        body.len() >= 120 ==> preview(body).len() == 120,
        preview(body)[i] != '\n',
        body[i] != '\n' ==> preview(body)[i] == body[i],
        body[i] == '\n' ==> preview(body)[i] == ' ',
{
}

/// A book that comes with a quote becomes its book, and its middle the mark; the
/// rest stays.
pub proof fn quotes_take_their_book(quote: Quote, book: Book)
    ensures
        quote.with_book(None) == quote,
        ({
            let after = quote.with_book(Some(book));
            &&& after.book == book
            &&& after.mark == book.mid
            &&& after.listing == quote.listing && after.mid == quote.mid && after.index
                == quote.index && after.prev_day == quote.prev_day && after.trades == quote.trades
                && after.funding_pct == quote.funding_pct && after.open_interest
                == quote.open_interest && after.volume_24h == quote.volume_24h
                && after.change_24h_pct == quote.change_24h_pct && after.fetched_at
                == quote.fetched_at
        }),
{
}

/// The address of bars names the market, and the width in the exchange's words: that
/// of one width is that of no other.
pub proof fn candle_addresses_name_market_and_width(
    base: Seq<char>,
    symbol: Seq<char>,
    timeframe: Timeframe,
    other: Timeframe,
)
    ensures
        candles_address(base, symbol, timeframe) == base + "/v1/candles/"@ + symbol + "?timeframe="@
            + timeframe.api_name(),
        candles_address(base, symbol, timeframe) == candles_address(base, symbol, other) ==> timeframe
            == other,
{
    let head = base + "/v1/candles/"@ + symbol + "?timeframe="@;
    let a = candles_address(base, symbol, timeframe);
    let b = candles_address(base, symbol, other);
    if a == b {
        assert(a.skip(head.len() as int) == timeframe.api_name());
        assert(b.skip(head.len() as int) == other.api_name());
        crate::timeframe::names_are_unique(timeframe, other);
    }
}

/// A limited rate is told with the seconds to wait, and with one where there are none
/// to wait. A failure is told in its own words.
pub proof fn refusals_are_told(limit: RateLimit, message: Seq<char>)
    ensures
        exists|count: Seq<char>|
            {
                &&& Refusal::RateLimited(limit).text() == #[trigger] rate_notice(count)
                &&& text::all_digits(count)
                &&& text::decimal_value(count) == if limit.retry_after >= 1 {
                    limit.retry_after as int
                } else {
                    1
                }
            },
        Refusal::Failed(message).text() == message,
        Refusal::RateLimited(limit).pause() == Some(limit.retry_after),
        Refusal::Failed(message).pause() is None,
{
    let n = if limit.retry_after >= 1 {
        limit.retry_after as nat
    } else {
        1
    };
    digits_say_the_number(n);
    assert(Refusal::RateLimited(limit).text() == rate_notice(text::digits(n)));
}

/// The words in which a limited rate is told.
pub open spec fn rate_notice(count: Seq<char>) -> Seq<char> {
    "phoenix rate limited, retry after "@ + count + "s"@
}

} // verus!
