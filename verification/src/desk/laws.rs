//! What holds of the desk whatever happens.

use super::chart::{
    excess, most_bars, most_hidden, scaled, whole_single, FEWEST_BARS, SINGLE_LIMIT, ZOOM_IN, ZOOM_OUT,
};
use super::{shown_depth, Screen, Scroll};
use crate::double::decimal::nearest_even;
use crate::double::Double;
use crate::feed::Event;
use crate::market::Snapshot;
use crate::timeframe::Timeframe;
use vstd::arithmetic::power2::*;
use vstd::prelude::*;

verus! {

impl Screen {
    /// The bars and the lists' lengths are those of what is shown, a stale desk
    /// has an error to show for it, and the chart is set to some bars.
    pub open spec fn valid(self) -> bool {
        &&& match self.desk {
            Some(desk) => {
                &&& self.candles == desk.candles
                &&& self.ask_rows == shown_depth(desk.book.asks.len())
                &&& self.bid_rows == shown_depth(desk.book.bids.len())
                &&& self.trade_rows == desk.trades.len()
            },
            None => self.candles.len() == 0 && self.ask_rows == 0 && self.bid_rows == 0
                && self.trade_rows == 0,
        }
        &&& self.market_rows == self.markets.len()
        &&& self.stale ==> self.desk is Some && self.last_error is Some
        &&& self.chart_visible >= FEWEST_BARS
    }

    /// The chart is set to bars that are there.
    pub open spec fn in_range(self) -> bool {
        &&& FEWEST_BARS <= self.chart_visible <= most_bars(self.candles.len())
        &&& self.chart_offset <= most_hidden(self.candles.len(), self.chart_visible)
    }
}

/// A new desk is valid, and on its way to connect.
pub proof fn opened_is_valid()
    ensures
        Screen::opened().valid(),
        Screen::opened().connection() == ("connecting"@, false),
{
}

/// Every event keeps the desk valid.
pub proof fn told_is_valid(screen: Screen, event: Event)
    requires
        screen.valid(),
    ensures
        screen.told(event).valid(),
{
}

/// Every key keeps the desk valid.
pub proof fn key_is_valid(screen: Screen, key: Seq<char>)
    requires
        screen.valid(),
    ensures
        screen.after_key(key).valid(),
{
}

/// Every gesture on the chart keeps the desk valid.
pub proof fn gestures_are_valid(
    screen: Screen,
    x: Double,
    scroll: Scroll,
    zooming: bool,
    bars: int,
)
    requires
        screen.valid(),
    ensures
        screen.dragged(x).valid(),
        screen.panned(bars).valid(),
        screen.chart_reset().valid(),
        screen.scrolled(scroll, zooming) matches Some(after) ==> after.valid(),
        screen.pinched(x) matches Some(after) ==> after.valid(),
{
}

/// A selection keeps the desk valid.
pub proof fn selection_is_valid(screen: Screen, symbol: Seq<char>, timeframe: Timeframe)
    requires
        screen.valid(),
    ensures
        screen.turned_to(symbol).valid(),
        screen.widened_to(timeframe).valid(),
{
}

/// What the feed tells of another market or width than the selected changes
/// nothing.
pub proof fn foreign_snapshot_is_ignored(screen: Screen, snapshot: Snapshot)
    requires
        snapshot.symbol != screen.selected_symbol || snapshot.timeframe != screen.timeframe,
    ensures
        screen.told(Event::Desk(snapshot)) == screen,
{
}

/// A desk that comes clears the error before it, and the warning with it.
pub proof fn snapshot_clears_error(screen: Screen, snapshot: Snapshot)
    requires
        screen.accepts(snapshot),
    ensures
        screen.told(Event::Desk(snapshot)).last_error is None,
        !screen.told(Event::Desk(snapshot)).connection().1,
{
}

/// An error is a warning: the desk is stale where there is something to show, and
/// offline where there is nothing. What is shown stays.
pub proof fn error_warns(screen: Screen, error: Seq<char>)
    ensures
        screen.told(Event::Error(error)).connection() == if screen.desk is Some {
            ("stale"@, true)
        } else {
            ("offline"@, true)
        },
        screen.told(Event::Error(error)).desk == screen.desk,
        screen.told(Event::Error(error)).candles == screen.candles,
{
}

/// Selecting what is selected changes nothing.
pub proof fn selecting_again(screen: Screen, symbol: Seq<char>, timeframe: Timeframe)
    ensures
        screen.turned_to(symbol).turned_to(symbol) == screen.turned_to(symbol),
        screen.widened_to(timeframe).widened_to(timeframe) == screen.widened_to(timeframe),
{
}

/// A zoom leaves the chart within its bars.
pub proof fn zoom_stays_in_range(screen: Screen, zoom_in: bool)
    ensures
        screen.zoomed(zoom_in).in_range(),
{
}

/// A move leaves a chart that is within its bars within them.
pub proof fn pan_stays_in_range(screen: Screen, bars: int)
    requires
        screen.in_range(),
    ensures
        screen.panned(bars).in_range(),
{
}

/// A move and the same move back leave the chart where it was, unless it came to
/// the end of its bars.
pub proof fn pan_there_and_back(screen: Screen, bars: int)
    requires
        screen.in_range(),
        0 <= screen.chart_offset + bars <= most_hidden(screen.candles.len(), screen.chart_visible),
    ensures
        screen.panned(bars).panned(-bars) == screen,
{
}

proof fn lemma_excess(n: nat)
    ensures
        excess(n) > 0 ==> n >= 0x80_0000 * pow2(excess(n)),
    decreases n,
{
    lemma2_to64();
    if n >= SINGLE_LIMIT {
        lemma_excess(n / 2);
        lemma_pow2_unfold(excess(n));
        let half = pow2(excess(n / 2)) as int;
        assert(pow2(excess(n)) == 2 * half);
        if excess(n / 2) > 0 {
            assert(n >= 0x80_0000 * (2 * half)) by (nonlinear_arith)
                requires
                    n / 2 >= 0x80_0000 * half,
            ;
        } else {
            assert(half == 1);
        }
    }
}

/// Single precision is at most one part in `2^24` away.
pub proof fn lemma_single(n: nat)
    ensures
        0x100_0000 * whole_single(n) <= 0x100_0001 * n,
        0x100_0000 * whole_single(n) >= 0xff_ffff * n,
{
    let step = pow2(excess(n)) as int;
    lemma2_to64();
    lemma_pow2_pos(excess(n));
    lemma_excess(n);
    let q = n as int / step;
    let r = n as int % step;
    vstd::arithmetic::div_mod::lemma_fundamental_div_mod(n as int, step);
    let m = nearest_even(n as int, step);
    assert(m * step - n <= step / 2 && n - m * step <= step / 2) by (nonlinear_arith)
        requires
            n == step * q + r,
            0 <= r < step,
            step > 0,
            m == q && 2 * r <= step || m == q + 1 && 2 * r >= step,
    ;
    assert(m * step >= 0) by (nonlinear_arith)
        requires
            m >= 0,
            step > 0,
    ;
    if excess(n) == 0 {
        assert(step == 1);
    }
}

/// Zooming in shows no more bars than before, zooming out no fewer.
pub proof fn zoom_narrows_and_widens(screen: Screen)
    requires
        screen.in_range(),
        screen.chart_visible < SINGLE_LIMIT,
    ensures
        screen.zoomed(true).chart_visible <= screen.chart_visible,
        screen.zoomed(false).chart_visible >= screen.chart_visible,
{
    let bars = screen.chart_visible;
    lemma2_to64();
    assert(whole_single(bars) == bars) by {
        assert(excess(bars) == 0 && pow2(0) == 1);
        assert(bars as int / 1 == bars && bars as int % 1 == 0);
        let m = nearest_even(bars as int, pow2(excess(bars)) as int);
        assert(m == bars);
        vstd::arithmetic::mul::lemma_mul_basics(m);
    }
    lemma_single(bars * ZOOM_IN as nat);
    lemma_single(bars * ZOOM_OUT as nat);
    assert(scaled(bars, ZOOM_IN as nat) <= bars);
    assert(scaled(bars, ZOOM_OUT as nat) >= bars);
}

} // verus!
