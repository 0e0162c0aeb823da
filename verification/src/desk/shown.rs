//! What the panels say of what the desk knows, number by number.

use super::panels::{
    fraction_of, largest_of, largest_size, price_or_dash, shows_side, shows_trade, BookRow,
    MarketRow, TopBar, TradeRow,
};
use super::Screen;
use crate::double::convert::ONE_BITS;
use crate::double::laws::unit;
use crate::double::ordering::{quotients_keep_order, singles_keep_order};
use crate::double::{rounding, Double};
use crate::format::laws::{
    clock_reads_stamps, limits_are_round, no_number_is_a_dash, percent_is_near, price_is_near, says,
    says_fixed, size_is_near,
};
use crate::format::{compact_text, price_text, size_text};
use crate::market::laws::lemma_order;
use crate::market::{BookLevel, Deal, Listing};
use crate::text;
use crate::text::laws::digits_say_the_number;
use vstd::arithmetic::div_mod::*;
use vstd::arithmetic::power2::*;
use vstd::prelude::*;

verus! {

/// A text says a price: to the cent from a thousand on, to four decimals from one on,
/// else to six. What is no finite number is a dash.
pub open spec fn says_price(s: Seq<char>, value: Double) -> bool {
    let m = Double::magnitude(value.code());
    if !value.finite() {
        s == "\u{2014}"@
    } else if m >= 1_000 * unit() {
        says_fixed(s, value.negative(), m, 100, 2)
    } else if m >= unit() {
        says(s, value.negative(), m, 10_000, 4)
    } else {
        says(s, value.negative(), m, 1_000_000, 6)
    }
}

/// A text says a size: to two decimals from a hundred on, else to four.
pub open spec fn says_size(s: Seq<char>, value: Double) -> bool {
    let m = Double::magnitude(value.code());
    if !value.finite() {
        s == "\u{2014}"@
    } else if m >= 100 * unit() {
        says_fixed(s, value.negative(), m, 100, 2)
    } else {
        says(s, value.negative(), m, 10_000, 4)
    }
}

proof fn lemma_says(value: Double)
    ensures
        says_price(price_text(value), value),
        says_size(size_text(value), value),
{
    if value.finite() {
        price_is_near(value);
        size_is_near(value);
    } else {
        no_number_is_a_dash(value);
    }
}

/// A side of the book shows its first levels, at most twelve, each with its own price
/// and its own size.
pub proof fn levels_show_their_numbers(rows: Seq<BookRow>, levels: Seq<BookLevel>, i: int)
    requires
        shows_side(rows, levels),
    ensures
        levels.len() <= 12 ==> rows.len() == levels.len(),
        levels.len() > 12 ==> rows.len() == 12,
        0 <= i < rows.len() ==> says_price(rows[i].price@, levels[i].price) && says_size(
            rows[i].size@,
            levels[i].size,
        ),
{
    if 0 <= i < rows.len() {
        lemma_says(levels[i].price);
        lemma_says(levels[i].size);
    }
}

/// The largest of some sizes is none smaller than any of them.
proof fn lemma_largest(levels: Seq<BookLevel>, i: int)
    requires
        0 <= i < levels.len(),
        forall|k: int| 0 <= k < levels.len() ==> (#[trigger] levels[k]).size.finite(),
    ensures
        largest_of(levels).finite(),
        largest_of(levels).value() >= levels[i].size.value(),
        largest_of(levels).value() >= 0,
    decreases levels.len(),
{
    let before = levels.drop_last();
    assert(levels.last() == levels[levels.len() - 1]);
    rounding::lemma_magnitude_of(0, 0);
    rounding::lemma_powers();
    assert((Double { bits: 0 }).value() == 0);
    if before.len() == 0 {
        assert(largest_of(before) == (Double { bits: 0 }));
    } else {
        let k = if i < before.len() {
            i
        } else {
            0
        };
        assert forall|j: int| 0 <= j < before.len() implies (
        #[trigger] before[j]).size.finite() by {
            assert(before[j] == levels[j]);
        }
        lemma_largest(before, k);
        assert(before[k] == levels[k]);
    }
    lemma_order(largest_of(before), levels.last().size);
}

/// The largest of some sizes is one of them, or none is above zero.
proof fn lemma_largest_is_there(levels: Seq<BookLevel>, most: Double)
    requires
        most.finite(),
        most.value() >= 0,
        forall|k: int|
            0 <= k < levels.len() ==> (#[trigger] levels[k]).size.finite()
                && levels[k].size.value() <= most.value(),
    ensures
        largest_of(levels).finite(),
        largest_of(levels).value() <= most.value(),
    decreases levels.len(),
{
    rounding::lemma_magnitude_of(0, 0);
    rounding::lemma_powers();
    if levels.len() > 0 {
        let before = levels.drop_last();
        assert(levels.last() == levels[levels.len() - 1]);
        assert forall|j: int| 0 <= j < before.len() implies (#[trigger] before[j]).size.finite()
            && before[j].size.value() <= most.value() by {
            assert(before[j] == levels[j]);
        }
        lemma_largest_is_there(before, most);
        lemma_order(largest_of(before), levels.last().size);
    }
}

/// The size that counts as full is one at least.
proof fn lemma_full(levels: Seq<BookLevel>, i: int)
    requires
        0 <= i < levels.len(),
        forall|k: int| 0 <= k < levels.len() ==> (#[trigger] levels[k]).size.finite(),
    ensures
        largest_size(levels).finite(),
        largest_size(levels).value() >= levels[i].size.value(),
        largest_size(levels).value() >= unit(),
        largest_size(levels) == largest_of(levels) || largest_size(levels) == (
        Double { bits: ONE_BITS }),
        (Double { bits: ONE_BITS }).value() == unit(),
        (Double { bits: ONE_BITS }).finite(),
        unit() > 0,
{
    lemma_pow2_pos(crate::double::arithmetic::UNIT_EXPONENT as nat);
    limits_are_round();
    lemma_largest(levels, i);
    assert((Double { bits: ONE_BITS }).code() == ONE_BITS);
    lemma_order(largest_of(levels), Double { bits: ONE_BITS });
}

/// A part of the full size is between nothing and one, and no smaller for a larger
/// size.
proof fn lemma_parts(a: Double, b: Double, full: Double)
    requires
        a.finite(),
        b.finite(),
        full.finite(),
        full.value() >= unit() > 0,
        a.value() <= b.value(),
    ensures
        !fraction_of(a, full).nan(),
        !fraction_of(b, full).nan(),
        0 <= fraction_of(a, full).rank() <= fraction_of(b, full).rank() <= ONE_BITS,
        a.value() <= 0 ==> fraction_of(a, full).rank() == 0,
        b.value() >= full.value() ==> fraction_of(b, full).rank() == ONE_BITS,
{
    let zero = Double { bits: 0 };
    quotients_keep_order(a, b, full);
    rounding::lemma_magnitude_of(0, 0);
    rounding::lemma_powers();
    assert(zero.value() == 0);
    assert((Double { bits: ONE_BITS }).rank() == ONE_BITS);
    assert(zero.rank() == 0);
    lemma_order(full, zero);
    assert(full.code() > 0 && !full.negative());
    if a.value() <= 0 {
        quotients_keep_order(a, zero, full);
        lemma_zero_quotient(full);
    }
    if b.value() >= full.value() {
        quotients_keep_order(full, b, full);
        lemma_own_quotient(full);
    }
}

proof fn lemma_zero_quotient(x: Double)
    requires
        x.finite(),
        x.value() > 0,
    ensures
        (Double { bits: 0 }).quotient(x).rank() == 0,
{
    rounding::lemma_magnitude_of(0, 0);
    rounding::lemma_powers();
    rounding::lemma_magnitude_grows(0, x.code());
    let d = Double::magnitude(x.code());
    assert(0 * unit() == 0 && Double::magnitude(0) * d == 0) by (nonlinear_arith)
        requires
            Double::magnitude(0) == 0,
    ;
    rounding::lemma_nearest_exact(0, d, 0);
}

/// A number over itself is one.
proof fn lemma_own_quotient(x: Double)
    requires
        x.finite(),
        x.value() > 0,
    ensures
        x.quotient(x).rank() == ONE_BITS,
{
    rounding::lemma_magnitude_of(0, 0);
    rounding::lemma_powers();
    rounding::lemma_magnitude_grows(0, x.code());
    let d = Double::magnitude(x.code());
    limits_are_round();
    assert(d * unit() == unit() * d) by (nonlinear_arith);
    rounding::lemma_nearest_exact(d * unit(), d, ONE_BITS as int);
}

/// The rows of a side are filled in proportion: nothing for no size, no less for a
/// larger size, and all of the row for the largest, where that is at least one.
pub proof fn rows_fill_with_size(rows: Seq<BookRow>, levels: Seq<BookLevel>, i: int, j: int)
    requires
        shows_side(rows, levels),
        forall|k: int| 0 <= k < levels.len() ==> (#[trigger] levels[k]).size.finite(),
        0 <= i < rows.len(),
        0 <= j < rows.len(),
        levels[i].size.value() <= levels[j].size.value(),
    ensures
        0 <= rows[i].fraction.rank() <= rows[j].fraction.rank() <= ONE_BITS,
        levels[i].size.value() <= 0 ==> rows[i].fraction.rank() == 0,
        levels[j].size.value() >= unit() && (forall|k: int|
            0 <= k < rows.len() ==> (#[trigger] levels[k]).size.value() <= levels[j].size.value())
            ==> rows[j].fraction.rank() == ONE_BITS,
        (Double { bits: ONE_BITS }).value() == unit(),
{
    let shown = levels.take(super::shown_depth(levels.len()) as int);
    assert forall|k: int| 0 <= k < shown.len() implies (#[trigger] shown[k]).size.finite() by {
        assert(shown[k] == levels[k]);
    }
    lemma_full(shown, i);
    lemma_full(shown, j);
    let full = largest_size(shown);
    let a = levels[i].size;
    let b = levels[j].size;
    assert(shown[i] == levels[i] && shown[j] == levels[j]);
    lemma_parts(a, b, full);
    let one = Double { bits: ONE_BITS };
    assert(one.rank() == ONE_BITS && !one.nan());
    lemma_single_one();
    singles_keep_order(Double { bits: 0 }, fraction_of(a, full));
    singles_keep_order(fraction_of(a, full), fraction_of(b, full));
    singles_keep_order(fraction_of(b, full), one);
    if b.value() >= unit() && (forall|k: int|
        0 <= k < rows.len() ==> (#[trigger] levels[k]).size.value() <= b.value()) {
        assert forall|k: int| 0 <= k < shown.len() implies (#[trigger] shown[k]).size.finite()
            && shown[k].size.value() <= b.value() by {
            assert(shown[k] == levels[k]);
        }
        lemma_largest_is_there(shown, b);
        assert(full.value() <= b.value());
        singles_keep_order(one, fraction_of(b, full));
    }
}

proof fn lemma_single_one()
    ensures
        (Double { bits: ONE_BITS }).single() == (Double { bits: ONE_BITS }),
{
    let one = Double { bits: ONE_BITS };
    assert(one.code() == ONE_BITS && !one.negative());
    assert(ONE_BITS as int % 0x2000_0000 == 0);
}

/// A line of the trades shows the price, the size, the time and the side of its trade.
pub proof fn trades_show_their_numbers(row: TradeRow, trade: Deal)
    requires
        shows_trade(row, trade),
    ensures
        says_price(row.price@, trade.price),
        says_size(row.size@, trade.size),
        row.is_buy == trade.is_buy,
        (forall|i: int| 0 <= i < trade.timestamp.len() ==> (#[trigger] trade.timestamp[i]) as int
            <= 127) && trade.timestamp.len() >= 19 ==> row.time@ == trade.timestamp.subrange(
            11,
            19,
        ),
{
    lemma_says(trade.price);
    lemma_says(trade.size);
    if (forall|i: int| 0 <= i < trade.timestamp.len() ==> (#[trigger] trade.timestamp[i]) as int
        <= 127) {
        clock_reads_stamps(trade.timestamp);
    }
}

/// The line at the top shows the snapshot: its market, its mark, its change with a sign
/// and two decimals, its funding with four, its open interest and its volume. What is
/// not known is a dash.
pub proof fn top_bar_shows_the_snapshot(screen: Screen, bar: TopBar)
    requires
        screen.shown_in(bar),
    ensures
        screen.desk matches Some(desk) ==> {
            &&& bar.symbol@ == desk.symbol + "-PERP"@
            &&& bar.name@ == desk.name
            &&& desk.mark is Some ==> says_price(bar.mark@, desk.mark->0)
            &&& desk.mark is None ==> bar.mark@ == "\u{2014}"@
            &&& desk.change_24h_pct is None ==> bar.change@ == "\u{2014}"@ && bar.rises
            &&& desk.change_24h_pct matches Some(change) ==> {
                let m = Double::magnitude(change.code());
                &&& change.finite() ==> bar.rises == (change.value() >= 0)
                &&& change.finite() ==> bar.change@.last() == '%'
                &&& change.finite() && change.negative() ==> says_fixed(
                    bar.change@.drop_last(),
                    true,
                    m,
                    100,
                    2,
                )
                &&& change.finite() && !change.negative() ==> bar.change@[0] == '+' && says_fixed(
                    bar.change@.drop_last().drop_first(),
                    false,
                    m,
                    100,
                    2,
                )
            }
            &&& desk.funding_pct is None ==> bar.funding@ == "\u{2014}"@
            &&& desk.funding_pct matches Some(funding) ==> {
                &&& funding.finite() ==> bar.funding@.last() == '%' && says_fixed(
                    bar.funding@.drop_last(),
                    funding.negative(),
                    Double::magnitude(funding.code()),
                    10_000,
                    4,
                )
            }
            &&& desk.open_interest is None ==> bar.open_interest@ == "\u{2014}"@
            &&& desk.open_interest matches Some(open) ==> bar.open_interest@ == compact_text(open)
            &&& desk.volume_24h is None ==> bar.volume@ == "\u{2014}"@
            &&& desk.volume_24h matches Some(volume) ==> bar.volume@ == compact_text(volume)
        },
        screen.desk is None ==> bar.symbol@ == screen.selected_symbol + "-PERP"@ && bar.mark@
            == "\u{2014}"@ && bar.name@ == "Phoenix Perp"@,
{
    if let Some(desk) = screen.desk {
        if let Some(mark) = desk.mark {
            lemma_says(mark);
        }
        if let Some(change) = desk.change_24h_pct {
            if change.finite() {
                percent_is_near(change);
                rounding::lemma_magnitude_of(0, 0);
                rounding::lemma_powers();
                assert((Double { bits: 0 }).value() == 0);
                lemma_order(Double { bits: 0 }, change);
            }
        }
        if let Some(funding) = desk.funding_pct {
            if funding.finite() {
                percent_is_near(funding);
            }
        }
    }
}

/// A line of the markets' list shows its market, whether it is the selected one, and
/// the whole of its leverage with an x, or a dash where that is nothing.
pub proof fn market_rows_show_their_market(screen: Screen, row: MarketRow, market: Listing)
    requires
        screen.shows_market(row, market),
        market.max_leverage.finite(),
        market.max_leverage.value() < 0x7fff_ffff_ffff_ffff * unit(),
    ensures
        row.symbol@ == market.symbol,
        row.id@ == "market-"@ + market.symbol,
        row.active <==> market.symbol == screen.selected_symbol,
        market.max_leverage.value() <= 0 ==> row.leverage@ == "\u{2014}"@,
        market.max_leverage.value() > 0 ==> {
            let digits = row.leverage@.drop_last();
            let n = crate::text::decimal_value(digits);
            &&& row.leverage@.last() == 'x'
            &&& crate::text::all_digits(digits)
            &&& n * unit() <= market.max_leverage.value() < (n + 1) * unit()
        },
{
    let x = market.max_leverage;
    lemma_order(x, x);
    if x.value() > 0 {
        let u = unit();
        lemma_pow2_pos(crate::double::arithmetic::UNIT_EXPONENT as nat);
        rounding::lemma_magnitude_step(x.code());
        assert(!x.negative());
        let m = Double::magnitude(x.code());
        let n = m / u;
        lemma_fundamental_div_mod(m, u);
        assert(u * n == n * u && (n + 1) * u == n * u + u) by (nonlinear_arith);
        lemma_div_pos_is_pos(m, u);
        assert(n < 0x7fff_ffff_ffff_ffff) by (nonlinear_arith)
            requires
                n * u <= m,
                m < 0x7fff_ffff_ffff_ffff * u,
                u > 0,
        ;
        assert(x.whole() == n);
        digits_say_the_number(n as nat);
        reveal_strlit("x");
        assert(row.leverage@ == text::digits(n as nat) + "x"@);
        assert(row.leverage@.drop_last() == text::digits(n as nat));
    }
}

/// The line at the bottom tells the last error, else the state of the market; between
/// the sides of the book stands the mark, else the middle.
pub proof fn lines_tell_the_state(screen: Screen)
    ensures
        screen.last_error matches Some(error) ==> screen.detail() == error,
        screen.last_error is None && screen.desk is None ==> screen.detail() == "Phoenix "@
            + "loading"@ + " \u{b7} paper mode \u{b7} no signing"@,
        screen.last_error is None && screen.desk is Some ==> screen.detail() == "Phoenix "@
            + screen.desk->0.status + " \u{b7} paper mode \u{b7} no signing"@,
        screen.desk matches Some(desk) ==> {
            &&& screen.asks() == desk.book.asks
            &&& screen.bids() == desk.book.bids
            &&& screen.trades() == desk.trades
            &&& screen.mark() == desk.mark
            &&& desk.mark is Some ==> screen.book_mid() == desk.mark
            &&& desk.mark is None ==> screen.book_mid() == desk.book.mid
        },
        screen.title() == "Proof Terminal \u{2014} "@ + screen.selected_symbol + "-PERP"@,
        price_or_dash(None) == "\u{2014}"@,
{
}

} // verus!
