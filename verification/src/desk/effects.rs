//! What each event, key and gesture does to the desk, part by part.

use super::chart::{excess, scaled, whole_single, ZOOM_IN, ZOOM_OUT};
use super::laws::lemma_single;
use super::{Screen, Scroll};
use crate::candles::window_shows_its_bars;
use crate::double::decimal::nearest_even;
use crate::double::laws::{size_of, unit};
use crate::double::{rounding, Double};
use crate::feed::Event;
use crate::market::laws::lemma_order;
use crate::market::{Listing, Snapshot};
use crate::timeframe::Timeframe;
use vstd::arithmetic::power2::*;
use vstd::prelude::*;

verus! {

/// A desk opens on Solana in minutes, with nothing to show, the ticket set to a limit
/// order to buy, and eighty bars on the chart.
pub proof fn desk_opens_on_solana()
    ensures
        Screen::opened().selected_symbol == "SOL"@,
        Screen::opened().timeframe == Timeframe::OneMinute,
        Screen::opened().desk is None && Screen::opened().last_error is None,
        Screen::opened().markets.len() == 0 && Screen::opened().candles.len() == 0,
        Screen::opened().ticket_side_long && Screen::opened().ticket_is_limit,
        Screen::opened().chart_visible == 80 && Screen::opened().chart_offset == 0,
        Screen::opened().chart_drag is None && !Screen::opened().header_drag_armed,
{
}

/// The markets that come are listed, all of them, and nothing else changes.
pub proof fn markets_are_told(screen: Screen, markets: Seq<Listing>)
    ensures
        ({
            let after = screen.told(Event::Markets(markets));
            &&& after.markets == markets && after.market_rows == markets.len()
            &&& after.desk == screen.desk && after.candles == screen.candles && after.last_error
                == screen.last_error && after.stale == screen.stale
            &&& after.selected_symbol == screen.selected_symbol && after.timeframe
                == screen.timeframe
            &&& after.chart_visible == screen.chart_visible && after.chart_offset
                == screen.chart_offset
        }),
{
}

/// A snapshot of the selected market in the selected width is shown: its bars, at most
/// twelve levels of each side of its book, all its trades. It ends errors. The
/// markets, the chart's place and the ticket stay.
pub proof fn snapshots_are_told(screen: Screen, snapshot: Snapshot)
    requires
        snapshot.symbol == screen.selected_symbol,
        snapshot.timeframe == screen.timeframe,
    ensures
        ({
            let after = screen.told(Event::Desk(snapshot));
            &&& after.desk == Some(snapshot)
            &&& after.candles == snapshot.candles
            &&& after.ask_rows <= 12 && after.ask_rows <= snapshot.book.asks.len() && (
            after.ask_rows == 12 || after.ask_rows == snapshot.book.asks.len())
            &&& after.bid_rows <= 12 && after.bid_rows <= snapshot.book.bids.len() && (
            after.bid_rows == 12 || after.bid_rows == snapshot.book.bids.len())
            &&& after.trade_rows == snapshot.trades.len()
            &&& after.last_error is None && !after.stale
            &&& after.markets == screen.markets && after.market_rows == screen.market_rows
            &&& after.chart_visible == screen.chart_visible && after.chart_offset
                == screen.chart_offset && after.chart_drag == screen.chart_drag
            &&& after.ticket_side_long == screen.ticket_side_long && after.ticket_is_limit
                == screen.ticket_is_limit
        }),
{
}

/// An error is kept in its words, and makes what is shown stale; all else stays.
pub proof fn errors_are_told(screen: Screen, error: Seq<char>)
    ensures
        ({
            let after = screen.told(Event::Error(error));
            &&& after.last_error == Some(error)
            &&& screen.desk is Some ==> after.stale
            &&& screen.desk is None ==> after.stale == screen.stale
            &&& after.desk == screen.desk && after.candles == screen.candles && after.markets
                == screen.markets
            &&& after.chart_visible == screen.chart_visible && after.chart_offset
                == screen.chart_offset
        }),
{
}

/// The desk says offline after an error with nothing to show, stale after an error with
/// something to show, live where a mark, a bid or a bar is known, and else that it
/// connects; it warns of the first two.
pub proof fn connection_is_told(screen: Screen)
    ensures
        screen.last_error is Some && screen.desk is None ==> screen.connection() == (
            "offline"@,
            true,
        ),
        !(screen.last_error is Some && screen.desk is None) && screen.stale ==> screen.connection()
            == ("stale"@, true),
        screen.desk matches Some(desk) ==> {
            &&& !screen.stale && (desk.mark is Some || desk.book.bids.len() > 0
                || desk.candles.len() > 0) ==> screen.connection() == ("live"@, false)
            &&& !screen.stale && desk.mark is None && desk.book.bids.len() == 0
                && desk.candles.len() == 0 ==> screen.connection() == ("connecting"@, false)
        },
        screen.desk is None && screen.last_error is None && !screen.stale ==> screen.connection()
            == ("connecting"@, false),
{
}

/// Turning to another market begins its chart at the newest bar and ends errors, but
/// keeps the width, the zoom and, until the other comes, what is shown.
pub proof fn turning_keeps_the_rest(screen: Screen, symbol: Seq<char>)
    ensures
        ({
            let after = screen.turned_to(symbol);
            &&& after.selected_symbol == symbol
            &&& symbol == screen.selected_symbol ==> after == screen
            &&& symbol != screen.selected_symbol ==> after.chart_offset == 0 && after.last_error
                is None && !after.stale
            &&& after.timeframe == screen.timeframe && after.chart_visible == screen.chart_visible
            &&& after.desk == screen.desk && after.candles == screen.candles && after.markets
                == screen.markets
        }),
{
}

/// Turning to another width begins the chart at the newest bar and keeps all else.
pub proof fn widening_keeps_the_rest(screen: Screen, timeframe: Timeframe)
    ensures
        ({
            let after = screen.widened_to(timeframe);
            &&& after.timeframe == timeframe
            &&& timeframe == screen.timeframe ==> after == screen
            &&& timeframe != screen.timeframe ==> after.chart_offset == 0
            &&& after.selected_symbol == screen.selected_symbol && after.chart_visible
                == screen.chart_visible
            &&& after.desk == screen.desk && after.candles == screen.candles && after.last_error
                == screen.last_error && after.stale == screen.stale
        }),
{
}

/// The names of the keys tell them apart.
proof fn lemma_keys()
    ensures
        "1"@ != "2"@ && "1"@ != "3"@ && "2"@ != "3"@,
        "="@ != "1"@ && "="@ != "2"@ && "="@ != "3"@,
        "+"@ != "1"@ && "+"@ != "2"@ && "+"@ != "3"@ && "+"@ != "="@,
        "-"@ != "1"@ && "-"@ != "2"@ && "-"@ != "3"@ && "-"@ != "="@ && "-"@ != "+"@,
        "0"@ != "1"@ && "0"@ != "2"@ && "0"@ != "3"@ && "0"@ != "="@ && "0"@ != "+"@ && "0"@
            != "-"@,
        "0"@.len() == 1 && "1"@.len() == 1 && "2"@.len() == 1 && "3"@.len() == 1,
        "="@.len() == 1 && "+"@.len() == 1 && "-"@.len() == 1,
        "left"@.len() == 4 && "right"@.len() == 5 && "home"@.len() == 4 && "left"@ != "home"@,
{
    reveal_strlit("0");
    reveal_strlit("1");
    reveal_strlit("2");
    reveal_strlit("3");
    reveal_strlit("=");
    reveal_strlit("+");
    reveal_strlit("-");
    reveal_strlit("left");
    reveal_strlit("right");
    reveal_strlit("home");
    assert("1"@[0] == '1' && "2"@[0] == '2' && "3"@[0] == '3' && "0"@[0] == '0');
    assert("="@[0] == '=' && "+"@[0] == '+' && "-"@[0] == '-');
    assert("left"@[0] == 'l' && "home"@[0] == 'h');
}

/// The keys 1, 2 and 3 turn to Solana, bitcoin and ether.
pub proof fn number_keys_turn(screen: Screen)
    ensures
        screen.after_key("1"@).selected_symbol == "SOL"@,
        screen.after_key("2"@).selected_symbol == "BTC"@,
        screen.after_key("3"@).selected_symbol == "ETH"@,
        screen.after_key("1"@).chart_visible == screen.chart_visible,
        screen.after_key("2"@).chart_visible == screen.chart_visible,
        screen.after_key("3"@).chart_visible == screen.chart_visible,
{
    lemma_keys();
}

/// Plus, and the equals sign on its key, zooms in as the chart does, minus zooms out.
/// Home, and zero, sets the chart to the newest eighty bars.
pub proof fn sign_keys_zoom(screen: Screen)
    ensures
        screen.after_key("+"@) == screen.after_key("="@),
        screen.after_key("+"@) == screen.zoomed(true),
        screen.after_key("-"@) == screen.zoomed(false),
        screen.after_key("home"@) == screen.after_key("0"@),
        screen.after_key("home"@).chart_visible == 80,
        screen.after_key("home"@).chart_offset == 0,
        screen.after_key("home"@).chart_drag is None,
        screen.after_key("home"@).selected_symbol == screen.selected_symbol,
{
    lemma_keys();
}

/// The arrows move the chart by eight bars, to the left into the past, to the right
/// towards the newest bar, and no further than there are bars.
pub proof fn arrow_keys_move(screen: Screen)
    requires
        screen.in_range(),
    ensures
        ({
            let most = if screen.candles.len() > screen.chart_visible {
                screen.candles.len() - screen.chart_visible
            } else {
                0
            };
            let left = screen.after_key("left"@);
            let right = screen.after_key("right"@);
            &&& screen.chart_offset + 8 <= most ==> left.chart_offset == screen.chart_offset + 8
            &&& screen.chart_offset + 8 > most ==> left.chart_offset == most
            &&& screen.chart_offset >= 8 ==> right.chart_offset == screen.chart_offset - 8
            &&& screen.chart_offset < 8 ==> right.chart_offset == 0
            &&& left.chart_visible == screen.chart_visible && right.chart_visible
                == screen.chart_visible
        }),
{
    lemma_keys();
}

/// No other key does anything.
pub proof fn other_keys_do_nothing(screen: Screen, key: Seq<char>)
    requires
        key != "1"@ && key != "2"@ && key != "3"@,
        key != "+"@ && key != "="@ && key != "-"@,
        key != "left"@ && key != "right"@ && key != "home"@ && key != "0"@,
    ensures
        screen.after_key(key) == screen,
{
}

/// A chart that is in range moves by as many bars as it is told, no further into the
/// past than there are bars, and no further than the newest.
pub proof fn moves_go_as_far_as_bars(screen: Screen, bars: int)
    requires
        screen.in_range(),
    ensures
        ({
            let after = screen.panned(bars);
            let most = if screen.candles.len() > screen.chart_visible {
                screen.candles.len() - screen.chart_visible
            } else {
                0
            };
            &&& 0 <= screen.chart_offset + bars <= most ==> after.chart_offset
                == screen.chart_offset + bars
            &&& screen.chart_offset + bars < 0 ==> after.chart_offset == 0
            &&& screen.chart_offset + bars > most ==> after.chart_offset == most
            &&& after.chart_visible == screen.chart_visible && after.candles == screen.candles
                && after.desk == screen.desk
        }),
{
}

/// Zooming in shows 0.85 times as many bars, zooming out 1.18 times, to within half a
/// bar and a hundredth, but at least twenty, and at most all of them where there are
/// twenty.
pub proof fn zooms_are_in_proportion(screen: Screen)
    requires
        screen.chart_visible <= 0x1_0000,
    ensures
        ({
            let bars = screen.chart_visible as int;
            let most = if screen.candles.len() > 20 {
                screen.candles.len() as int
            } else {
                20
            };
            let near = screen.zoomed(true).chart_visible as int;
            let far = screen.zoomed(false).chart_visible as int;
            &&& 20 <= near <= most && 20 <= far <= most
            &&& near == 20 && 100 * near - 85 * bars >= -51 || near == most && 100 * near - 85
                * bars <= 51 || size_of(100 * near - 85 * bars) <= 51
            &&& far == 20 && 100 * far - 118 * bars >= -51 || far == most && 100 * far - 118 * bars
                <= 51 || size_of(100 * far - 118 * bars) <= 51
        }),
{
    let bars = screen.chart_visible;
    lemma2_to64();
    assert(whole_single(bars) == bars) by {
        assert(excess(bars) == 0 && pow2(0) == 1);
        assert(bars as int / 1 == bars && bars as int % 1 == 0);
        let m = nearest_even(bars as int, pow2(excess(bars)) as int);
        assert(m == bars);
        vstd::arithmetic::mul::lemma_mul_basics(m);
    }
    lemma_single(bars * ZOOM_IN as nat);
    lemma_single(bars * ZOOM_OUT as nat);
    assert(size_of(100 * scaled(bars, ZOOM_IN as nat) - 85 * bars) <= 51);
    assert(size_of(100 * scaled(bars, ZOOM_OUT as nat) - 118 * bars) <= 51);
}

/// A zoom keeps the place of the chart as long as there are bars for it.
pub proof fn zooms_keep_the_place(screen: Screen, zoom_in: bool)
    ensures
        ({
            let after = screen.zoomed(zoom_in);
            &&& after.chart_offset <= screen.chart_offset
            &&& screen.chart_offset + after.chart_visible <= screen.candles.len()
                ==> after.chart_offset == screen.chart_offset
            &&& screen.chart_offset + after.chart_visible > screen.candles.len()
                && after.chart_visible <= screen.candles.len() ==> after.chart_offset
                + after.chart_visible == screen.candles.len()
            &&& after.candles == screen.candles && after.desk == screen.desk && after.timeframe
                == screen.timeframe
        }),
{
}

/// The chart shows as many bars as it is set to, those that end before the ones that it
/// is moved past.
pub proof fn chart_shows_its_bars(screen: Screen, i: int)
    requires
        screen.in_range(),
        screen.chart_visible <= screen.candles.len(),
        0 <= i < screen.chart_visible,
    ensures
        screen.shown_bars().len() == screen.chart_visible,
        screen.shown_bars()[i] == screen.candles[screen.candles.len() - screen.chart_offset
            - screen.chart_visible + i],
{
    window_shows_its_bars(screen.candles, screen.chart_visible, screen.chart_offset, i);
}

/// A pinch of a hundredth or more zooms: apart in, together out. A smaller one does
/// nothing.
pub proof fn pinches_zoom(screen: Screen, delta: Double)
    requires
        delta.finite(),
    ensures
        100_000 * size_of(delta.value()) < 999 * unit() ==> screen.pinched(delta) is None,
        100_000 * delta.value() > 1_001 * unit() ==> screen.pinched(delta) == Some(
            screen.zoomed(true),
        ),
        100_000 * delta.value() < -1_001 * unit() ==> screen.pinched(delta) == Some(
            screen.zoomed(false),
        ),
{
    lemma_thresholds();
    lemma_absolute(delta);
    lemma_order(delta, delta);
    lemma_order(delta.absolute(), Double { bits: super::LEAST_PINCH });
}

/// A scroll up and down zooms: up in, down out. One of less than a tenth of a pixel
/// does nothing.
pub proof fn scrolls_zoom(screen: Screen, x: Double, y: Double, zooming: bool)
    requires
        x.finite(),
        y.finite(),
        zooming || size_of(y.value()) >= size_of(x.value()),
    ensures
        10_000 * size_of(y.value()) < 999 * unit() ==> screen.scrolled(
            Scroll::Pixels { x, y },
            zooming,
        ) is None,
        10_000 * y.value() > 1_001 * unit() ==> screen.scrolled(Scroll::Pixels { x, y }, zooming)
            == Some(screen.zoomed(true)),
        10_000 * y.value() < -1_001 * unit() ==> screen.scrolled(Scroll::Pixels { x, y }, zooming)
            == Some(screen.zoomed(false)),
{
    lemma_thresholds();
    lemma_absolute(x);
    lemma_absolute(y);
    lemma_order(y, y);
    lemma_order(y.absolute(), x.absolute());
    lemma_order(y.absolute(), Double { bits: super::LEAST_SCROLL });
}

/// A scroll to the side, without a key to zoom, never zooms: it moves the chart by the
/// bars of its distance, and does nothing where it is less than a tenth of a pixel.
pub proof fn scrolls_move(screen: Screen, x: Double, y: Double)
    requires
        x.finite(),
        y.finite(),
        size_of(x.value()) > size_of(y.value()),
    ensures
        10_000 * size_of(x.value()) < 999 * unit() ==> screen.scrolled(
            Scroll::Pixels { x, y },
            false,
        ) is None,
        10_000 * size_of(x.value()) > 1_001 * unit() ==> {
            &&& screen.scrolled(Scroll::Pixels { x, y }, false) matches Some(after)
            &&& after.chart_visible == screen.chart_visible
            &&& screen.in_range() ==> after == screen.panned(super::bars_in(x))
        },
{
    lemma_thresholds();
    lemma_absolute(x);
    lemma_absolute(y);
    lemma_order(y.absolute(), x.absolute());
    lemma_order(x.absolute(), Double { bits: super::LEAST_SCROLL });
}

proof fn lemma_absolute(x: Double)
    ensures
        x.absolute().value() == size_of(x.value()),
        x.absolute().code() == x.code(),
{
    rounding::lemma_magnitude_step(x.code());
}

/// The least scroll is a tenth, the least pinch a hundredth, to three digits.
proof fn lemma_thresholds()
    ensures
        999 * unit() < 10_000 * (Double { bits: super::LEAST_SCROLL }).value() < 1_001 * unit(),
        999 * unit() < 100_000 * (Double { bits: super::LEAST_PINCH }).value() < 1_001 * unit(),
{
    let scroll = Double { bits: super::LEAST_SCROLL };
    let pinch = Double { bits: super::LEAST_PINCH };
    assert(scroll.code() == super::LEAST_SCROLL && !scroll.negative());
    assert(pinch.code() == super::LEAST_PINCH && !pinch.negative());
    rounding::lemma_magnitude_of(1018, 0x19_9999_a000_0000);
    rounding::lemma_magnitude_of(1015, 0x14_7ae1_4000_0000);
    lemma2_to64();
    lemma_pow2_adds(32, 24);
    lemma_pow2_adds(32, 27);
    lemma_pow2_adds(56, 1018);
    lemma_pow2_adds(59, 1015);
    lemma_pow2_pos(1018);
    lemma_pow2_pos(1015);
    let p = pow2(1018) as int;
    let q = pow2(1015) as int;
    assert(unit() == 0x100_0000_0000_0000 * p && unit() == 0x800_0000_0000_0000 * q);
}

} // verus!
