//! Which member of a message says what.

use super::{
    book_in, candle_in, channel_in, deal_in, funding_in, funding_percent, level_in, levels_in,
    message_in, mid_in, mids_in, subscription, subscription_text, subscription_texts, tick_in,
    timestamp_in, Message, LARGEST_FRACTION,
};
use crate::double::arithmetic::UNIT_EXPONENT;
use crate::double::laws::{product_is_near, size_of, unit};
use crate::double::{rounding, Double};
use crate::json::laws::members_are_found;
use crate::json::{written_json, Tree};
use crate::lists::{kept, kept_one_by_one, kept_piece_by_piece};
use crate::market::{Candle, HUNDRED};
use crate::timeframe::Timeframe;
use vstd::arithmetic::power2::*;
use vstd::prelude::*;

verus! {

/// The number of the first member, of some names, that is a number.
pub open spec fn number_of(value: Tree, names: Seq<Seq<char>>) -> Option<Double>
    decreases names.len(),
{
    if names.len() == 0 {
        None
    } else if value.number_at(names[0]) is Some {
        value.number_at(names[0])
    } else {
        number_of(value, names.drop_first())
    }
}

proof fn lemma_number_of(value: Tree, names: Seq<Seq<char>>)
    ensures
        names.len() == 1 ==> number_of(value, names) == value.number_at(names[0]),
        names.len() == 2 ==> number_of(value, names) == if value.number_at(names[0]) is Some {
            value.number_at(names[0])
        } else {
            value.number_at(names[1])
        },
        names.len() == 3 ==> number_of(value, names) == if value.number_at(names[0]) is Some {
            value.number_at(names[0])
        } else if value.number_at(names[1]) is Some {
            value.number_at(names[1])
        } else {
            value.number_at(names[2])
        },
        names.len() == 4 ==> number_of(value, names) == if value.number_at(names[0]) is Some {
            value.number_at(names[0])
        } else if value.number_at(names[1]) is Some {
            value.number_at(names[1])
        } else if value.number_at(names[2]) is Some {
            value.number_at(names[2])
        } else {
            value.number_at(names[3])
        },
{
    reveal_with_fuel(number_of, 5);
}

/// A bar takes each of its numbers from the member of that name, and its time from
/// `time`; it is there where these five are. Seconds become milliseconds.
pub proof fn candle_says_its_members(value: Tree)
    ensures
        candle_in(value) is Some <==> value.integer_at("time"@) is Some && value.number_at(
            "open"@,
        ) is Some && value.number_at("high"@) is Some && value.number_at("low"@) is Some
            && value.number_at("close"@) is Some,
        candle_in(value) matches Some(candle) ==> {
            &&& value.number_at("open"@) == Some(candle.open)
            &&& value.number_at("high"@) == Some(candle.high)
            &&& value.number_at("low"@) == Some(candle.low)
            &&& value.number_at("close"@) == Some(candle.close)
            &&& value.number_at("volume"@) matches Some(volume) ==> candle.volume == volume
            &&& value.number_at("volume"@) is None ==> candle.volume.value() == 0
            &&& candle.volume_quote == value.number_at("volumeQuote"@)
            &&& (candle.trade_count is Some) == (value.integer_at("tradeCount"@) is Some)
            &&& value.integer_at("tradeCount"@) matches Some(count) ==> {
                &&& 0 <= count <= u32::MAX ==> candle.trade_count == Some(count as u32)
                &&& count < 0 ==> candle.trade_count == Some(0u32)
            }
        },
{
    rounding::lemma_magnitude_of(0, 0);
    rounding::lemma_powers();
}

/// A time above ten billion is in milliseconds already; another is in seconds.
pub proof fn times_become_milliseconds(value: Tree)
    requires
        candle_in(value) is Some,
        -9_000_000_000_000_000 <= value.integer_at("time"@)->0 <= i64::MAX,
    ensures
        ({
            let time = value.integer_at("time"@)->0;
            candle_in(value)->0.time_ms == if time > 10_000_000_000 {
                time
            } else {
                time * 1_000
            }
        }),
{
}

/// A bar whose members are in order is in order: no price is below the low nor
/// above the high.
pub proof fn candles_stay_in_order(value: Tree)
    requires
        candle_in(value) is Some,
        ({
            let low = value.number_at("low"@)->0;
            let high = value.number_at("high"@)->0;
            let open = value.number_at("open"@)->0;
            let close = value.number_at("close"@)->0;
            low.at_most(open) && low.at_most(close) && open.at_most(high) && close.at_most(high)
        }),
    ensures
        ({
            let candle = candle_in(value)->0;
            &&& candle.low.at_most(candle.open) && candle.low.at_most(candle.close)
            &&& candle.open.at_most(candle.high) && candle.close.at_most(candle.high)
            &&& candle.low.at_most(candle.high)
        }),
{
}

/// A tick takes each of its numbers from the first member of its names that is a
/// number; what no member says it does not say.
pub proof fn tick_says_its_members(value: Tree)
    ensures
        ({
            let tick = tick_in(value);
            &&& tick.mark == number_of(value, seq!["markPx"@, "markPrice"@, "midPx"@, "mid"@])
            &&& tick.index == number_of(value, seq!["oraclePx"@, "indexPx"@, "indexPrice"@])
            &&& tick.mid == number_of(value, seq!["midPx"@, "mid"@])
            &&& tick.prev_day == number_of(value, seq!["prevDayPx"@, "prevDayPrice"@])
            &&& tick.open_interest == number_of(value, seq!["openInterest"@, "openInterestBase"@])
            &&& tick.volume_24h == number_of(
                value,
                seq!["dayNtlVlm"@, "volume24h"@, "dayVolume"@],
            )
            &&& (tick.funding_pct is Some) == (number_of(value, seq!["funding"@, "fundingRate"@]) is
                Some)
            &&& number_of(value, seq!["funding"@, "fundingRate"@]) matches Some(funding)
                ==> tick.funding_pct == Some(funding_percent(funding))
        }),
{
    lemma_number_of(value, seq!["markPx"@, "markPrice"@, "midPx"@, "mid"@]);
    lemma_number_of(value, seq!["oraclePx"@, "indexPx"@, "indexPrice"@]);
    lemma_number_of(value, seq!["midPx"@, "mid"@]);
    lemma_number_of(value, seq!["prevDayPx"@, "prevDayPrice"@]);
    lemma_number_of(value, seq!["openInterest"@, "openInterestBase"@]);
    lemma_number_of(value, seq!["dayNtlVlm"@, "volume24h"@, "dayVolume"@]);
    lemma_number_of(value, seq!["funding"@, "fundingRate"@]);
}

/// The change of a day is counted from the day before to the mark, in percent: it
/// is there where both are and the day before is not next to nothing.
pub proof fn tick_change_is_from_the_day_before(value: Tree)
    ensures
        ({
            let tick = tick_in(value);
            &&& tick.mark is None || tick.prev_day is None ==> tick.change_24h_pct is None
            &&& tick.mark is Some && tick.prev_day is Some ==> tick.change_24h_pct
                == crate::market::percent_since(tick.prev_day, tick.mark)
        }),
{
}

/// Funding up to one twentieth is a fraction, of which the percents are a hundred
/// times as many; funding of more is in percent already.
pub proof fn funding_is_in_percent(value: Double)
    requires
        value.finite(),
    ensures
        20 * Double::magnitude(value.code()) <= unit() ==> funding_percent(value).finite() ==> 2
            * size_of(funding_percent(value).value() - 100 * value.value()) <= funding_percent(
            value,
        ).gap(),
        20 * Double::magnitude(value.code()) > unit() + pow2(1025) ==> funding_percent(value)
            == value,
{
    crate::format::laws::limits_are_round();
    let limit = Double { bits: LARGEST_FRACTION };
    let code = value.code();
    let digits = 0x19_9999_9999_999aint;
    lemma_pow2_pos(1017);
    lemma_pow2_adds(1017, 57);
    lemma_pow2_adds(1017, 8);
    lemma_pow2_adds(32, 25);
    lemma2_to64();
    let p = pow2(1017) as int;
    assert(LARGEST_FRACTION as int / 0x10_0000_0000_0000 == 1018);
    assert(LARGEST_FRACTION as int % 0x10_0000_0000_0000 == 0x9_9999_9999_999a);
    assert(Double::magnitude(LARGEST_FRACTION as int) == digits * p);
    assert(limit.code() == LARGEST_FRACTION);
    assert(value.absolute().code() == code);
    assert(20 * (digits * p) > unit()) by (nonlinear_arith)
        requires
            unit() == p * 0x200_0000_0000_0000,
            digits == 0x19_9999_9999_999a,
            p > 0,
    ;
    assert(20 * (digits * p) <= unit() + pow2(1025)) by (nonlinear_arith)
        requires
            unit() == p * 0x200_0000_0000_0000,
            pow2(1025) == p * 256,
            digits == 0x19_9999_9999_999a,
            p > 0,
    ;
    if code <= LARGEST_FRACTION {
        rounding::lemma_magnitude_grows(code, LARGEST_FRACTION as int);
    } else {
        rounding::lemma_magnitude_grows(LARGEST_FRACTION as int, code);
    }
    if value.absolute().at_most(limit) {
        let hundred = Double { bits: HUNDRED };
        let product = value.product(hundred);
        assert(funding_percent(value) == product);
        if product.finite() {
            product_is_near(value, hundred);
            lemma_pow2_pos(UNIT_EXPONENT as nat);
            let u = unit();
            let x = product.value();
            let y = value.value();
            assert(hundred.value() == 100 * u);
            assert(x * u - y * (100 * u) == (x - 100 * y) * u) by (nonlinear_arith);
            assert(2 * size_of(x - 100 * y) <= product.gap()) by (nonlinear_arith)
                requires
                    2 * size_of((x - 100 * y) * u) <= product.gap() * u,
                    u > 0,
            ;
        }
    }
}

/// A level is a pair: first the price, then the size, which is more than nothing.
pub proof fn levels_are_pairs(entry: Tree)
    ensures
        level_in(entry) matches Some(level) ==> {
            &&& entry.items().len() >= 2
            &&& entry.items()[0].number() == Some(level.price)
            &&& entry.items()[1].number() == Some(level.size)
            &&& level.size.positive()
        },
        entry.items().len() >= 2 && entry.items()[0].number() is Some
            && entry.items()[1].number() is Some && entry.items()[1].number()->0.positive()
            ==> level_in(entry) is Some,
{
}

/// The levels of entries come in their order, each from its own entry; those that
/// are none are left out.
pub proof fn levels_come_in_order(a: Seq<Tree>, b: Seq<Tree>, entry: Tree)
    ensures
        levels_in(a + b) == levels_in(a) + levels_in(b),
        level_in(entry) matches Some(level) ==> levels_in(seq![entry]) == seq![level],
        level_in(entry) is None ==> levels_in(seq![entry]).len() == 0,
        (forall|i: int| 0 <= i < a.len() ==> level_in(#[trigger] a[i]) is Some) ==> levels_in(
            a,
        ).len() == a.len() && forall|i: int|
            0 <= i < a.len() ==> level_in(a[i]) == Some(#[trigger] levels_in(a)[i]),
{
    let f = |entry: Tree| level_in(entry);
    kept_piece_by_piece(a, b, entry, f);
    if forall|i: int| 0 <= i < a.len() ==> level_in(#[trigger] a[i]) is Some {
        assert forall|i: int| 0 <= i < a.len() implies f(#[trigger] a[i]) is Some by {
            assert(level_in(a[i]) is Some);
        }
        kept_one_by_one(a, f);
        assert forall|i: int| 0 <= i < a.len() implies level_in(a[i]) == Some(
            #[trigger] levels_in(a)[i],
        ) by {
            assert(f(a[i]) == Some(kept(a, f)[i]));
        }
    }
}

/// A book takes its bids from `bids` and its asks from `asks`, of the member
/// `orderbook` where there is one; its middle is the one that is told, or lies
/// between the best prices.
pub proof fn book_says_its_members(value: Tree)
    ensures
        ({
            let inner = match value.field("orderbook"@) {
                Some(inner) => inner,
                None => value,
            };
            &&& book_in(value) is None <==> levels_in(inner.items_at("bids"@)).len() == 0
                && levels_in(inner.items_at("asks"@)).len() == 0
            &&& book_in(value) matches Some(book) ==> {
                &&& book.bids == levels_in(inner.items_at("bids"@))
                &&& book.asks == levels_in(inner.items_at("asks"@))
                &&& value.text_at("symbol"@) matches Some(symbol) ==> book.symbol == symbol
                &&& value.text_at("symbol"@) is None ==> book.symbol.len() == 0
                &&& inner.number_at("mid"@) is Some ==> book.mid == inner.number_at("mid"@)
                &&& inner.number_at("mid"@) is None && value.number_at("mid"@) is Some ==> book.mid
                    == value.number_at("mid"@)
                &&& inner.number_at("mid"@) is None && value.number_at("mid"@) is None ==> book.mid
                    == crate::market::midway(book.bids, book.asks)
            }
        }),
{
}

/// A trade takes its price and its amounts from the first member of their names
/// that is a number, and without a price there is none. The size is told without
/// its sign: a negative one sells, a positive one buys, and where there is none the
/// side says it.
pub proof fn trade_says_its_members(value: Tree)
    ensures
        (deal_in(value) is Some) == (number_of(value, seq!["price"@, "px"@]) is Some),
        deal_in(value) matches Some(deal) ==> {
            let size = number_of(value, seq!["size"@, "baseAmount"@, "baseQty"@, "sz"@]);
            &&& number_of(value, seq!["price"@, "px"@]) == Some(deal.price)
            &&& deal.notional == number_of(value, seq!["notional"@, "quoteAmount"@, "quoteQty"@])
            &&& size matches Some(size) ==> deal.size.value() == size_of(size.value())
                && !deal.size.negative()
            &&& size is None ==> deal.size.value() == 0
            &&& size is Some && size->0.positive() ==> deal.is_buy
            &&& size is Some && size->0.below(Double { bits: 0 }) ==> !deal.is_buy
            &&& size is None ==> deal.is_buy == (value.text_at("side"@) == Some("bid"@)
                || value.text_at("side"@) == Some("b"@) || value.text_at("side"@) == Some("buy"@)
                || value.text_at("side"@) == Some("Buy"@))
            &&& value.text_at("timestamp"@) matches Some(stamp) ==> deal.timestamp == stamp
        },
{
    lemma_number_of(value, seq!["price"@, "px"@]);
    lemma_number_of(value, seq!["size"@, "baseAmount"@, "baseQty"@, "sz"@]);
    lemma_number_of(value, seq!["notional"@, "quoteAmount"@, "quoteQty"@]);
    rounding::lemma_magnitude_of(0, 0);
    rounding::lemma_powers();
    reveal_strlit("bid");
    reveal_strlit("b");
    reveal_strlit("buy");
    reveal_strlit("Buy");
    assert("bid"@.len() > 0 && "b"@.len() > 0 && "buy"@.len() > 0 && "Buy"@.len() > 0);
    assert(value.text_at("side"@) is None ==> super::or_empty(value.text_at("side"@)).len() == 0);
    if let Some(size) = number_of(value, seq!["size"@, "baseAmount"@, "baseQty"@, "sz"@]) {
        rounding::lemma_magnitude_step(size.code());
        assert(size.absolute().code() == size.code());
    }
}

/// A time stamp that is an integer is told in its digits; where there is none, the
/// integer `time` is.
pub proof fn stamps_are_told(value: Tree)
    ensures
        value.field("timestamp"@) is None ==> match value.integer_at("time"@) {
            Some(time) => timestamp_in(value) == crate::text::integer(time),
            None => timestamp_in(value).len() == 0,
        },
        value.field("timestamp"@) matches Some(Tree::Number(n)) ==> n.signed matches Some(time)
            ==> timestamp_in(value) == crate::text::integer(time as int),
{
}

/// The mids are the members of `mids` that are numbers, each with its own name.
pub proof fn mids_say_their_members(value: Tree, name: Seq<char>, member: Tree)
    ensures
        value.field("mids"@) is None ==> mids_in(value).len() == 0,
        mid_in((name, member)) is Some <==> member.number() is Some,
        mid_in((name, member)) matches Some(mid) ==> mid.0 == name && Some(mid.1)
            == member.number(),
        value.field("mids"@) matches Some(mids) ==> ((forall|i: int|
            0 <= i < mids.members().len() ==> (#[trigger] mids.members()[i]).1.number() is Some)
            ==> {
            &&& mids_in(value).len() == mids.members().len()
            &&& forall|i: int|
                0 <= i < mids_in(value).len() ==> (#[trigger] mids_in(value)[i]).0
                    == mids.members()[i].0 && Some(mids_in(value)[i].1)
                    == mids.members()[i].1.number()
        }),
{
    if let Some(mids) = value.field("mids"@) {
        let members = mids.members();
        let f = |member: (Seq<char>, Tree)| mid_in(member);
        if forall|i: int| 0 <= i < members.len() ==> (#[trigger] members[i]).1.number() is Some {
            assert forall|i: int| 0 <= i < members.len() implies f(#[trigger] members[i]) is Some by {
                assert(members[i].1.number() is Some);
            }
            kept_one_by_one(members, f);
            assert forall|i: int| 0 <= i < mids_in(value).len() implies (
            #[trigger] mids_in(value)[i]).0 == members[i].0 && Some(mids_in(value)[i].1)
                == members[i].1.number() by {
                assert(f(members[i]) == Some(kept(members, f)[i]));
            }
        }
    } else {
        let f = |member: (Seq<char>, Tree)| mid_in(member);
        assert(kept(Seq::<(Seq<char>, Tree)>::empty(), f).len() == 0);
    }
}

proof fn lemma_channels()
    ensures
        "orderbook"@ != "market"@ && "orderbook"@ != "trades"@ && "orderbook"@ != "allMids"@
            && "orderbook"@ != "candle"@ && "orderbook"@ != "candles"@ && "orderbook"@
            != "fundingRate"@,
        "market"@ != "trades"@ && "market"@ != "allMids"@ && "market"@ != "candle"@ && "market"@
            != "candles"@ && "market"@ != "fundingRate"@,
        "trades"@ != "allMids"@ && "trades"@ != "candle"@ && "trades"@ != "candles"@ && "trades"@
            != "fundingRate"@,
        "allMids"@ != "candle"@ && "allMids"@ != "candles"@ && "allMids"@ != "fundingRate"@,
        "candle"@ != "fundingRate"@ && "candles"@ != "fundingRate"@,
{
    reveal_strlit("orderbook");
    reveal_strlit("market");
    reveal_strlit("trades");
    reveal_strlit("allMids");
    reveal_strlit("candle");
    reveal_strlit("candles");
    reveal_strlit("fundingRate");
    assert("orderbook"@[0] == 'o' && "market"@[0] == 'm' && "trades"@[0] == 't' && "allMids"@[0]
        == 'a' && "candle"@[0] == 'c' && "candles"@[0] == 'c' && "fundingRate"@[0] == 'f');
}

/// The channel, or the type where there is none, says what a message tells.
pub proof fn channel_says_what_is_told(value: Tree)
    ensures
        ({
            let channel = match value.text_at("channel"@) {
                Some(channel) => Some(channel),
                None => value.text_at("type"@),
            };
            &&& channel == Some("orderbook"@) ==> match book_in(value) {
                Some(book) => message_in(value) == Some(Message::Orderbook(book)),
                None => message_in(value) is None,
            }
            &&& channel == Some("market"@) ==> message_in(value) == Some(
                Message::Market(tick_in(value)),
            )
            &&& channel == Some("trades"@) ==> message_in(value) == Some(
                Message::Trades(kept(value.items_at("trades"@), |entry: Tree| deal_in(entry))),
            )
            &&& channel == Some("allMids"@) ==> message_in(value) == Some(
                Message::Mids(mids_in(value)),
            )
            &&& channel == Some("fundingRate"@) ==> (message_in(value) matches Some(
                Message::Market(tick),
            ) && tick.funding_pct == funding_in(value) && tick.mark is None && tick.index is None
                && tick.mid is None && tick.prev_day is None && tick.open_interest is None
                && tick.volume_24h is None && tick.change_24h_pct is None)
            &&& (channel == Some("candle"@) || channel == Some("candles"@))
                && message_in(value) is Some ==> (message_in(value) matches Some(
                Message::Candle { timeframe, candle },
            ) && value.text_at("timeframe"@) == Some(timeframe.api_name()) && value.field(
                "candle"@,
            ) is Some && candle_in(value.field("candle"@)->0) == Some(candle))
            &&& (channel == Some("candle"@) || channel == Some("candles"@)) && value.field(
                "candle"@,
            ) is Some && candle_in(value.field("candle"@)->0) is Some && value.text_at(
                "timeframe"@,
            ) is Some && Timeframe::named(value.text_at("timeframe"@)->0) is Some ==> message_in(
                value,
            ) is Some
            &&& channel is None ==> message_in(value) is None
        }),
{
    lemma_channels();
    reveal_strlit("orderbook");
    reveal_strlit("market");
    reveal_strlit("trades");
    reveal_strlit("allMids");
    reveal_strlit("candle");
    reveal_strlit("candles");
    reveal_strlit("fundingRate");
    assert("orderbook"@.len() > 0 && "market"@.len() > 0 && "trades"@.len() > 0 && "allMids"@.len()
        > 0 && "candle"@.len() > 0 && "candles"@.len() > 0 && "fundingRate"@.len() > 0);
    if value.text_at("channel"@) is None && value.text_at("type"@) is None {
        assert(channel_in(value).len() == 0);
    }
    if let Some(name) = value.text_at("timeframe"@) {
        if let Some(timeframe) = Timeframe::named(name) {
            assert(timeframe.api_name() == name);
        }
    }
}

/// A text is a JSON object that starts or ends the subscription of a channel, of a
/// market where one is named, and of a width where one is named.
pub open spec fn subscribes(
    message: Seq<char>,
    verb: Seq<char>,
    channel: Seq<char>,
    symbol: Option<Seq<char>>,
    width: Option<Seq<char>>,
) -> bool {
    exists|tree: Tree|
        {
            &&& message == #[trigger] written_json(tree)
            &&& tree.members().len() == 2
            &&& tree.text_at("type"@) == Some(verb)
            &&& tree.field("subscription"@) is Some
            &&& tree.field("subscription"@)->0.text_at("channel"@) == Some(channel)
            &&& tree.field("subscription"@)->0.text_at("symbol"@) == symbol
            &&& tree.field("subscription"@)->0.text_at("timeframe"@) == width
        }
}

proof fn lemma_subscription(
    subscribe: bool,
    channel: Seq<char>,
    symbol: Option<Seq<char>>,
    timeframe: Option<Timeframe>,
)
    requires
        timeframe is Some ==> symbol is Some,
    ensures
        subscribes(
            subscription_text(subscribe, channel, symbol, timeframe),
            if subscribe {
                "subscribe"@
            } else {
                "unsubscribe"@
            },
            channel,
            symbol,
            match timeframe {
                Some(timeframe) => Some(timeframe.api_name()),
                None => None,
            },
        ),
{
    reveal_strlit("channel");
    reveal_strlit("symbol");
    reveal_strlit("timeframe");
    reveal_strlit("subscription");
    reveal_strlit("type");
    assert("channel"@.len() == 7 && "symbol"@.len() == 6 && "timeframe"@.len() == 9);
    assert("subscription"@.len() == 12 && "type"@.len() == 4);
    let inner = subscription(channel, symbol, timeframe);
    let members = seq![
        ("subscription"@, Tree::Object(inner)),
        (
            "type"@,
            Tree::Text(
                if subscribe {
                    "subscribe"@
                } else {
                    "unsubscribe"@
                },
            ),
        ),
    ];
    let tree = Tree::Object(members);
    members_are_found(members, "subscription"@, 0);
    members_are_found(members, "type"@, 1);
    members_are_found(inner, "channel"@, 0);
    members_are_found(inner, "symbol"@, 1);
    members_are_found(
        inner,
        "timeframe"@,
        if timeframe is Some {
            2
        } else {
            inner.len() as int
        },
    );
    assert(subscription_text(subscribe, channel, symbol, timeframe) == written_json(tree));
}

/// Six messages start, or end, what a market's desk needs: the mids of all markets, and
/// the book, the market, the trades, the funding and the bars of the one, the bars in
/// their width.
pub proof fn subscriptions_name_their_channels(
    symbol: Seq<char>,
    timeframe: Timeframe,
    subscribe: bool,
)
    ensures
        ({
            let all = subscription_texts(symbol, timeframe, subscribe);
            let verb = if subscribe {
                "subscribe"@
            } else {
                "unsubscribe"@
            };
            &&& all.len() == 6
            &&& subscribes(all[0], verb, "allMids"@, None, None)
            &&& subscribes(all[1], verb, "orderbook"@, Some(symbol), None)
            &&& subscribes(all[2], verb, "market"@, Some(symbol), None)
            &&& subscribes(all[3], verb, "trades"@, Some(symbol), None)
            &&& subscribes(all[4], verb, "fundingRate"@, Some(symbol), None)
            &&& subscribes(all[5], verb, "candles"@, Some(symbol), Some(timeframe.api_name()))
        }),
{
    lemma_subscription(subscribe, "allMids"@, None, None);
    lemma_subscription(subscribe, "orderbook"@, Some(symbol), None);
    lemma_subscription(subscribe, "market"@, Some(symbol), None);
    lemma_subscription(subscribe, "trades"@, Some(symbol), None);
    lemma_subscription(subscribe, "fundingRate"@, Some(symbol), None);
    lemma_subscription(subscribe, "candles"@, Some(symbol), Some(timeframe));
}

} // verus!
