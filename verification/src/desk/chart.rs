//! The chart: how many bars it shows and from where, and where their prices lie.

use crate::double::convert::ONE_BITS;
use crate::double::decimal::nearest_even;
use crate::double::Double;
use crate::market::{Candle, EPSILON};
use vstd::arithmetic::power2::*;
use vstd::prelude::*;

verus! {

/// The fewest bars that a chart is set to.
pub const FEWEST_BARS: usize = 20;

/// The bars that a chart is set to at first.
pub const USUAL_BARS: usize = 80;

/// The width of a bar, in pixels, by which drags and scrolls are counted: eight.
pub const BAR_WIDTH: u64 = 0x4020_0000_0000_0000;

/// What is as much as `2^24` single precision numbers count without a gap.
pub const SINGLE_LIMIT: u128 = 0x100_0000;

/// 0.85 in single precision, in units of `2^-24`.
pub const ZOOM_IN: u128 = 14_260_634;

/// 1.18 in single precision, in units of `2^-24`.
pub const ZOOM_OUT: u128 = 19_797_114;

/// The largest finite number.
pub const LARGEST: u64 = 0x7fef_ffff_ffff_ffff;

/// The smallest finite number.
pub const SMALLEST: u64 = 0xffef_ffff_ffff_ffff;

/// 0.08, the part of the prices' range that is left free above and below.
pub const MARGIN: u64 = 0x3fb4_7ae1_47ae_147b;

/// How many binary digits a number has beyond 24.
pub open spec fn excess(n: nat) -> nat
    decreases n,
{
    if n < SINGLE_LIMIT {
        0
    } else {
        1 + excess(n / 2)
    }
}

/// A whole number rounded to single precision: to 24 binary digits, to the even one
/// where two are equally near.
pub open spec fn whole_single(n: nat) -> nat {
    (nearest_even(n as int, pow2(excess(n)) as int) * pow2(excess(n))) as nat
}

/// A number of bars times a factor, each step in single precision, rounded to
/// the nearest whole number.
pub open spec fn scaled(bars: nat, factor: nat) -> nat {
    (whole_single(whole_single(bars) * factor) + SINGLE_LIMIT / 2) as nat / (SINGLE_LIMIT as nat)
}

/// `n` kept between two bounds.
pub open spec fn held_between(n: int, low: int, high: int) -> int {
    if n < low {
        low
    } else if n > high {
        high
    } else {
        n
    }
}

/// The most bars that a chart of so many bars is set to.
pub open spec fn most_bars(length: nat) -> nat {
    if length > FEWEST_BARS {
        length
    } else {
        FEWEST_BARS as nat
    }
}

/// The most bars that can lie to the right of a chart.
pub open spec fn most_hidden(length: nat, visible: nat) -> nat {
    if length > visible {
        (length - visible) as nat
    } else {
        0
    }
}

/// The bars that a chart is set to after a zoom.
pub open spec fn zoomed(length: nat, visible: nat, zoom_in: bool) -> nat {
    let factor = if zoom_in {
        ZOOM_IN as nat
    } else {
        ZOOM_OUT as nat
    };
    held_between(scaled(visible, factor) as int, FEWEST_BARS as int, most_bars(length) as int) as nat
}

/// The bars to the right of a chart after a move by some bars.
pub open spec fn panned(length: nat, visible: nat, offset: int, bars: int) -> nat {
    let shown = held_between(visible as int, FEWEST_BARS as int, most_bars(length) as int);
    held_between(offset + bars, 0, most_hidden(length, shown as nat) as int) as nat
}

/// Rounds to single precision.
pub(crate) fn round_single(n: u128) -> (result: u128)
    requires
        n < 0x1_0000_0000_0000_0000_0000_0000,
    ensures
        result == whole_single(n as nat),
        result <= 2 * n + 1,
{
    let mut step: u128 = 1;
    let mut left: u128 = n;
    proof {
        lemma2_to64();
    }
    let ghost mut shifts: nat = 0;
    assert(n == left * 1 + 0);
    while left >= SINGLE_LIMIT
        invariant
            step == pow2(shifts),
            excess(n as nat) == shifts + excess(left as nat),
            left == n as int / step as int,
            1 <= step,
            step == 1 || step <= n,
            n < 0x1_0000_0000_0000_0000_0000_0000,
        decreases left,
    {
        proof {
            lemma_pow2_unfold(shifts + 1);
            assert(n as int / (2 * step as int) == (n as int / step as int) / 2) by (nonlinear_arith)
                requires
                    step >= 1,
                    n >= 0,
            ;
            assert(2 * step <= n) by (nonlinear_arith)
                requires
                    left == n as int / step as int,
                    left >= 2,
                    step >= 1,
                    n >= 0,
            ;
            shifts = shifts + 1;
        }
        left = left / 2;
        step = step * 2;
    }
    proof {
        assert(excess(left as nat) == 0);
    }
    let rest: u128 = n % step;
    proof {
        vstd::arithmetic::div_mod::lemma_fundamental_div_mod(n as int, step as int);
        assert(left * step <= n && (left + 1) * step <= n + step) by (nonlinear_arith)
            requires
                n as int == step as int * (n as int / step as int) + n as int % step as int,
                left == n as int / step as int,
                n as int % step as int >= 0,
                step >= 1,
        ;
        assert(step == pow2(excess(n as nat)));
    }
    if 2 * rest > step || 2 * rest == step && left % 2 == 1 {
        (left + 1) * step
    } else {
        left * step
    }
}

/// A number of bars times a factor.
fn scale_bars(bars: usize, factor: u128) -> (result: u128)
    requires
        factor < 0x200_0000,
    ensures
        result == scaled(bars as nat, factor as nat),
{
    let exact: u128 = round_single(bars as u128);
    assert(exact * factor < 0x1_0000_0000_0000_0000_0000_0000) by (nonlinear_arith)
        requires
            exact <= 0x2_0000_0000_0000_0001,
            factor < 0x200_0000,
    ;
    (round_single(exact * factor) + SINGLE_LIMIT / 2) / SINGLE_LIMIT
}

/// The bars that a chart is set to after a zoom.
pub fn zoom_bars(length: usize, visible: usize, zoom_in: bool) -> (bars: usize)
    ensures
        bars == zoomed(length as nat, visible as nat, zoom_in),
{
    let wanted: u128 = scale_bars(visible, if zoom_in { ZOOM_IN } else { ZOOM_OUT });
    let most: usize = if length > FEWEST_BARS { length } else { FEWEST_BARS };
    if wanted < FEWEST_BARS as u128 {
        FEWEST_BARS
    } else if wanted > most as u128 {
        most
    } else {
        wanted as usize
    }
}

/// The most bars that can lie to the right of a chart.
pub fn hidden_limit(length: usize, visible: usize) -> (most: usize)
    ensures
        most == most_hidden(length as nat, visible as nat),
{
    if length > visible {
        length - visible
    } else {
        0
    }
}

/// The bars to the right of a chart after a move by some bars.
pub fn pan_bars(length: usize, visible: usize, offset: usize, bars: i128) -> (hidden: usize)
    requires
        -0x1_0000_0000_0000_0000 <= bars <= 0x1_0000_0000_0000_0000,
    ensures
        hidden == panned(length as nat, visible as nat, offset as int, bars as int),
{
    let most: usize = if length > FEWEST_BARS { length } else { FEWEST_BARS };
    let shown: usize = if visible < FEWEST_BARS {
        FEWEST_BARS
    } else if visible > most {
        most
    } else {
        visible
    };
    let limit: usize = hidden_limit(length, shown);
    let next: i128 = offset as i128 + bars;
    if next < 0 {
        0
    } else if next > limit as i128 {
        limit
    } else {
        next as usize
    }
}

/// The prices between which a chart lies: its top, and the way down from there.
#[derive(Clone, Copy, Debug)]
pub struct Scale {
    pub top: Double,
    pub range: Double,
}

/// The smallest low of bars.
pub open spec fn lowest(candles: Seq<Candle>) -> Double
    decreases candles.len(),
{
    if candles.len() == 0 {
        Double { bits: LARGEST }
    } else {
        lowest(candles.drop_last()).smaller(candles.last().low)
    }
}

/// The largest high of bars.
pub open spec fn highest(candles: Seq<Candle>) -> Double
    decreases candles.len(),
{
    if candles.len() == 0 {
        Double { bits: SMALLEST }
    } else {
        highest(candles.drop_last()).larger(candles.last().high)
    }
}

/// The scale of a chart that reaches from one price to another: a range of next
/// to nothing is widened to one, and a margin is left on both sides.
pub open spec fn scale_between(low: Double, high: Double) -> Scale {
    let top = if !low.finite() || !high.finite() || high.difference(low).absolute().below(
        Double { bits: EPSILON },
    ) {
        low.sum(Double { bits: ONE_BITS })
    } else {
        high
    };
    let pad = top.difference(low).product(Double { bits: MARGIN });
    let bottom = low.difference(pad);
    let top = top.sum(pad);
    Scale { top, range: top.difference(bottom) }
}

impl Scale {
    /// How far down a price lies, as a part of the chart's height.
    pub open spec fn depth_of(self, price: Double) -> Double {
        self.top.difference(price).quotient(self.range)
    }

    pub fn depth(self, price: Double) -> (result: Double)
        ensures
            result == self.depth_of(price),
    {
        self.top.minus(price).over(self.range)
    }
}

/// Where a bar lies, as parts of the chart's height from the top, and whether it
/// closes no lower than it opens.
#[derive(Clone, Copy, Debug)]
pub struct PlottedBar {
    pub high: Double,
    pub low: Double,
    pub open: Double,
    pub close: Double,
    pub rises: bool,
}

pub open spec fn bar_at(scale: Scale, candle: Candle) -> PlottedBar {
    PlottedBar {
        high: scale.depth_of(candle.high),
        low: scale.depth_of(candle.low),
        open: scale.depth_of(candle.open),
        close: scale.depth_of(candle.close),
        rises: candle.open.at_most(candle.close),
    }
}

/// The bars of a chart; none where there are fewer than two.
pub open spec fn plotted(candles: Seq<Candle>) -> Seq<PlottedBar> {
    if candles.len() < 2 {
        seq![]
    } else {
        let scale = scale_between(lowest(candles), highest(candles));
        Seq::new(candles.len(), |i: int| bar_at(scale, candles[i]))
    }
}

fn find_scale(candles: &Vec<Candle>) -> (scale: Scale)
    ensures
        scale == scale_between(lowest(candles@), highest(candles@)),
{
    let mut low: Double = Double { bits: LARGEST };
    let mut high: Double = Double { bits: SMALLEST };
    let mut i: usize = 0;
    while i < candles.len()
        invariant
            i <= candles.len(),
            low == lowest(candles@.take(i as int)),
            high == highest(candles@.take(i as int)),
        decreases candles.len() - i,
    {
        assert(candles@.take(i + 1).drop_last() == candles@.take(i as int));
        low = low.min(candles[i].low);
        high = high.max(candles[i].high);
        i = i + 1;
    }
    assert(candles@.take(candles@.len() as int) == candles@);
    if !low.is_finite() || !high.is_finite() || high.minus(low).abs().is_below(
        Double { bits: EPSILON },
    ) {
        high = low.plus(Double { bits: ONE_BITS });
    }
    let pad: Double = high.minus(low).times(Double { bits: MARGIN });
    let bottom: Double = low.minus(pad);
    let top: Double = high.plus(pad);
    Scale { top, range: top.minus(bottom) }
}

/// Where the bars of a chart lie.
pub fn plot_candles(candles: &Vec<Candle>) -> (bars: Vec<PlottedBar>)
    ensures
        bars@ == plotted(candles@),
{
    let mut bars: Vec<PlottedBar> = Vec::new();
    if candles.len() < 2 {
        return bars;
    }
    let scale: Scale = find_scale(candles);
    let mut i: usize = 0;
    while i < candles.len()
        invariant
            i <= candles.len(),
            bars@.len() == i,
            forall|j: int| 0 <= j < i ==> #[trigger] bars@[j] == bar_at(scale, candles@[j]),
        decreases candles.len() - i,
    {
        let candle: Candle = candles[i];
        bars.push(
            PlottedBar {
                high: scale.depth(candle.high),
                low: scale.depth(candle.low),
                open: scale.depth(candle.open),
                close: scale.depth(candle.close),
                rises: candle.open.is_at_most(candle.close),
            },
        );
        i = i + 1;
    }
    bars
}

} // verus!
