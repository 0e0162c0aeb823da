//! Where prices, bars and bodies lie on the chart.

use super::chart::{
    highest, lowest, plotted, scale_between, Scale, BAR_WIDTH, LARGEST, MARGIN, SMALLEST,
};
use super::picture::{BODY_PART, HALF, QUARTER, THREE_QUARTERS, WIDEST_BODY};
use super::{bars_in, Screen};
use crate::double::convert::ONE_BITS;
use crate::double::laws::{
    gap_is_small, product_is_near, quotient_is_near, size_of, sum_is_near, unit,
};
use crate::double::ordering::{
    differences_keep_order, products_keep_order, quotients_keep_order, single_products_are_near,
    single_quotients_are_near, single_sums_are_near, speck, sums_keep_order,
};
use crate::double::{rounding, Double, BINADE};
use crate::format::laws::limits_are_round;
use crate::market::laws::{lemma_difference, lemma_order};
use crate::market::{Candle, EPSILON};
use crate::paper::equity::lemma_scaled;
use vstd::arithmetic::div_mod::*;
use vstd::arithmetic::power2::*;
use vstd::prelude::*;

verus! {

pub proof fn lemma_basics()
    ensures
        unit() > 0,
        (Double { bits: 0 }).value() == 0,
        (Double { bits: 0 }).rank() == 0,
        (Double { bits: 0 }).finite(),
        (Double { bits: ONE_BITS }).value() == unit(),
        (Double { bits: ONE_BITS }).rank() == ONE_BITS,
        (Double { bits: ONE_BITS }).finite(),
{
    lemma_pow2_pos(crate::double::arithmetic::UNIT_EXPONENT as nat);
    limits_are_round();
    rounding::lemma_magnitude_of(0, 0);
    rounding::lemma_powers();
    assert((Double { bits: ONE_BITS }).code() == ONE_BITS);
}

/// A bar's low is no lower than the lowest, its high no higher than the highest.
pub proof fn extremes_bound_the_bars(candles: Seq<Candle>, i: int)
    requires
        0 <= i < candles.len(),
        forall|k: int|
            0 <= k < candles.len() ==> (#[trigger] candles[k]).low.finite()
                && candles[k].high.finite(),
    ensures
        lowest(candles).finite(),
        highest(candles).finite(),
        lowest(candles).value() <= candles[i].low.value(),
        highest(candles).value() >= candles[i].high.value(),
    decreases candles.len(),
{
    let before = candles.drop_last();
    let last = candles.last();
    assert(last == candles[candles.len() - 1]);
    lemma_ends();
    if before.len() > 0 {
        let k = if i < before.len() {
            i
        } else {
            0
        };
        assert forall|j: int| 0 <= j < before.len() implies (#[trigger] before[j]).low.finite()
            && before[j].high.finite() by {
            assert(before[j] == candles[j]);
        }
        extremes_bound_the_bars(before, k);
        assert(before[k] == candles[k]);
    } else {
        assert(lowest(before) == (Double { bits: LARGEST }));
        assert(highest(before) == (Double { bits: SMALLEST }));
    }
    lemma_order(last.low, lowest(before));
    lemma_order(highest(before), last.high);
}

/// The lowest is the low of a bar, and the highest the high of one.
pub proof fn extremes_are_of_bars(candles: Seq<Candle>)
    requires
        candles.len() > 0,
        forall|k: int|
            0 <= k < candles.len() ==> (#[trigger] candles[k]).low.finite()
                && candles[k].high.finite(),
    ensures
        exists|k: int|
            0 <= k < candles.len() && lowest(candles).value() == (#[trigger] candles[k]).low.value(),
        exists|k: int|
            0 <= k < candles.len() && highest(candles).value() == (
            #[trigger] candles[k]).high.value(),
    decreases candles.len(),
{
    let before = candles.drop_last();
    let last = candles.last();
    let n = candles.len() - 1;
    assert(last == candles[n]);
    lemma_ends();
    if before.len() > 0 {
        assert forall|j: int| 0 <= j < before.len() implies (#[trigger] before[j]).low.finite()
            && before[j].high.finite() by {
            assert(before[j] == candles[j]);
        }
        extremes_are_of_bars(before);
        extremes_bound_the_bars(before, 0);
        let a = choose|k: int|
            0 <= k < before.len() && lowest(before).value() == (#[trigger] before[k]).low.value();
        let b = choose|k: int|
            0 <= k < before.len() && highest(before).value() == (#[trigger] before[k]).high.value();
        assert(before[a] == candles[a] && before[b] == candles[b]);
        lemma_order(last.low, lowest(before));
        lemma_order(highest(before), last.high);
    } else {
        lemma_largest(last.low);
        lemma_largest(last.high);
        assert(lowest(before) == (Double { bits: LARGEST }));
        assert(highest(before) == (Double { bits: SMALLEST }));
        lemma_order(last.low, lowest(before));
        lemma_order(highest(before), last.high);
        lemma_order(lowest(before), last.low);
        lemma_order(last.high, highest(before));
    }
}

proof fn lemma_ends()
    ensures
        (Double { bits: LARGEST }).finite(),
        (Double { bits: SMALLEST }).finite(),
{
}

proof fn lemma_largest(x: Double)
    requires
        x.finite(),
    ensures
        (Double { bits: SMALLEST }).value() <= x.value() <= (Double { bits: LARGEST }).value(),
{
    let top = Double { bits: LARGEST };
    let bottom = Double { bits: SMALLEST };
    lemma_order(x, top);
    lemma_order(bottom, x);
    assert(top.rank() == LARGEST && bottom.rank() == -(LARGEST as int));
}

/// A number plus nothing is itself, in the order of numbers.
proof fn lemma_plus_zero(x: Double)
    requires
        x.finite(),
    ensures
        x.sum(Double { bits: 0 }).rank() == x.rank(),
{
    lemma_basics();
    rounding::lemma_magnitude_grows(0, x.code());
    let m = Double::magnitude(x.code());
    assert(m == m * 1);
    rounding::lemma_nearest_exact(m, 1, x.code());
    if x.value() == 0 {
        rounding::lemma_magnitude_of(0, 0);
        rounding::lemma_powers();
    }
}

/// The price that the chart reaches up to before a margin is left.
spec fn reached(low: Double, high: Double) -> Double {
    if high.difference(low).absolute().below(Double { bits: EPSILON }) {
        low.sum(Double { bits: ONE_BITS })
    } else {
        high
    }
}

/// The margin on each side.
spec fn pad_of(low: Double, high: Double) -> Double {
    reached(low, high).difference(low).product(Double { bits: MARGIN })
}

proof fn lemma_reached(low: Double, high: Double)
    requires
        low.finite(),
        high.finite(),
        low.value() <= high.value(),
        reached(low, high).finite(),
    ensures
        reached(low, high).value() >= high.value(),
{
    let zero = Double { bits: 0 };
    let one = Double { bits: ONE_BITS };
    lemma_basics();
    let top = reached(low, high);
    if high.difference(low).absolute().below(Double { bits: EPSILON }) {
        if high.value() > low.value() + unit() {
            differences_keep_order(one, zero, high, low);
            lemma_minus_zero(one);
            let way = high.difference(low);
            assert(way.rank() >= ONE_BITS);
            assert(way.absolute().rank() == way.rank());
            assert((Double { bits: EPSILON }).rank() == EPSILON);
        }
        sums_keep_order(high, zero, low, one);
        lemma_plus_zero(high);
        lemma_order(high, top);
    }
}

proof fn lemma_pad(low: Double, top: Double)
    requires
        low.finite(),
        top.finite(),
        low.value() <= top.value(),
        top.difference(low).product(Double { bits: MARGIN }).finite(),
    ensures
        top.difference(low).finite(),
        top.difference(low).value() >= 0,
        top.difference(low).product(Double { bits: MARGIN }).value() >= 0,
{
    let zero = Double { bits: 0 };
    let way = top.difference(low);
    let margin = Double { bits: MARGIN };
    lemma_basics();
    differences_keep_order(low, low, top, low);
    lemma_own_difference(low);
    assert(margin.finite() && margin.code() == MARGIN && !margin.negative());
    lemma_order(zero, margin);
    product_is_near(way, margin);
    lemma_order(zero, way);
    products_keep_order(zero, way, margin);
    lemma_zero_product(margin);
    lemma_order(zero, way.product(margin));
}

/// The scale of a chart reaches above its highest price and below its lowest.
proof fn lemma_scale_reaches(low: Double, high: Double, bottom: Double)
    requires
        low.finite(),
        high.finite(),
        low.value() <= high.value(),
        scale_between(low, high).top.finite(),
        scale_between(low, high).range.finite(),
        bottom == low.difference(pad_of(low, high)),
    ensures
        scale_between(low, high).top.value() >= high.value(),
        bottom.finite(),
        bottom.value() <= low.value(),
        scale_between(low, high).range == scale_between(low, high).top.difference(bottom),
{
    let zero = Double { bits: 0 };
    lemma_basics();
    let top = reached(low, high);
    let pad = pad_of(low, high);
    let scale = scale_between(low, high);
    assert(scale.top == top.sum(pad));
    assert(scale.range == scale.top.difference(bottom));
    sum_is_near(top, pad);
    lemma_reached(low, high);
    lemma_pad(low, top);
    sums_keep_order(top, zero, top, pad);
    lemma_plus_zero(top);
    lemma_order(top, scale.top);
    lemma_difference(scale.top, bottom);
    differences_keep_order(low, pad, low, zero);
    lemma_minus_zero(low);
    lemma_order(bottom, low);
}

proof fn lemma_minus_zero(x: Double)
    requires
        x.finite(),
    ensures
        x.difference(Double { bits: 0 }).rank() == x.rank(),
{
    lemma_basics();
    let zero = Double { bits: 0 };
    assert(zero.negation().value() == 0 && zero.negation().finite());
    lemma_plus_zero(x);
    sums_keep_order(x, zero, x, zero.negation());
    sums_keep_order(x, zero.negation(), x, zero);
}

proof fn lemma_own_difference(x: Double)
    requires
        x.finite(),
    ensures
        x.difference(x).rank() == 0,
{
    assert(x.negation().code() == x.code() && x.negation().negative() == !x.negative());
}

proof fn lemma_zero_product(x: Double)
    requires
        x.finite(),
    ensures
        (Double { bits: 0 }).product(x).rank() == 0,
{
    lemma_basics();
    rounding::lemma_magnitude_of(0, 0);
    rounding::lemma_powers();
    let d = Double::magnitude(x.code());
    assert(Double::magnitude(0) * d == 0 && Double::magnitude(0) * unit() == 0)
        by (nonlinear_arith)
        requires
            Double::magnitude(0) == 0,
    ;
    rounding::lemma_nearest_exact(0, unit(), 0);
}

/// A number over itself is one.
proof fn lemma_own_quotient(x: Double)
    requires
        x.finite(),
        x.value() > 0,
    ensures
        x.quotient(x).rank() == ONE_BITS,
{
    rounding::lemma_magnitude_of(0, 0);
    rounding::lemma_powers();
    rounding::lemma_magnitude_grows(0, x.code());
    let d = Double::magnitude(x.code());
    limits_are_round();
    assert(d * unit() == unit() * d) by (nonlinear_arith);
    rounding::lemma_nearest_exact(d * unit(), d, ONE_BITS as int);
}

/// A higher price lies no lower on the chart.
pub proof fn higher_prices_lie_higher(scale: Scale, price: Double, other: Double)
    requires
        scale.top.finite(),
        scale.range.finite(),
        scale.range.value() > 0,
        price.finite(),
        other.finite(),
        price.value() <= other.value(),
        scale.top.difference(price).finite(),
        scale.top.difference(other).finite(),
    ensures
        scale.depth_of(other).at_most(scale.depth_of(price)),
{
    differences_keep_order(scale.top, other, scale.top, price);
    lemma_order(scale.top.difference(other), scale.top.difference(price));
    quotients_keep_order(scale.top.difference(other), scale.top.difference(price), scale.range);
}

/// How far down a price lies, times the range, is the way from the top, as far as the
/// gaps say.
#[verifier::rlimit(40)]
pub proof fn depths_are_in_proportion(scale: Scale, price: Double)
    requires
        scale.depth_of(price).finite(),
        scale.range.finite(),
        scale.range.value() > 0,
    ensures
        2 * size_of(
            scale.depth_of(price).value() * scale.range.value() - (scale.top.value()
                - price.value()) * unit(),
        ) <= scale.depth_of(price).gap() * scale.range.value() + scale.top.difference(price).gap()
            * unit(),
{
    let way = scale.top.difference(price);
    lemma_basics();
    quotient_is_near(way, scale.range);
    lemma_difference(scale.top, price);
    let slip = way.value() - (scale.top.value() - price.value());
    lemma_scaled(slip, way.gap(), unit());
    assert(slip * unit() == way.value() * unit() - (scale.top.value() - price.value()) * unit())
        by (nonlinear_arith)
        requires
            slip == way.value() - (scale.top.value() - price.value()),
    ;
}

/// Every bar of the chart lies within its height, the high no lower than the open and
/// the close, and these no lower than the low; it rises where it does not close below
/// its open.
#[verifier::rlimit(40)]
pub proof fn bars_lie_within_the_chart(candles: Seq<Candle>, i: int)
    requires
        candles.len() >= 2,
        0 <= i < candles.len(),
        forall|k: int|
            0 <= k < candles.len() ==> (#[trigger] candles[k]).low.finite()
                && candles[k].high.finite(),
        candles[i].open.finite(),
        candles[i].close.finite(),
        candles[i].low.value() <= candles[i].open.value() <= candles[i].high.value(),
        candles[i].low.value() <= candles[i].close.value() <= candles[i].high.value(),
        scale_between(lowest(candles), highest(candles)).top.finite(),
        scale_between(lowest(candles), highest(candles)).range.finite(),
        scale_between(lowest(candles), highest(candles)).range.value() > 0,
    ensures
        ({
            let bar = plotted(candles)[i];
            let zero = Double { bits: 0 };
            let one = Double { bits: ONE_BITS };
            &&& plotted(candles).len() == candles.len()
            &&& zero.at_most(bar.high) && bar.low.at_most(one)
            &&& bar.high.at_most(bar.open) && bar.high.at_most(bar.close)
            &&& bar.open.at_most(bar.low) && bar.close.at_most(bar.low)
            &&& bar.rises == (candles[i].close.value() >= candles[i].open.value())
            &&& one.value() == unit() && zero.value() == 0
        }),
{
    let low = lowest(candles);
    let high = highest(candles);
    let candle = candles[i];
    let scale = scale_between(low, high);
    extremes_bound_the_bars(candles, i);
    assert(low.value() <= high.value());
    let bottom = low.difference(pad_of(low, high));
    lemma_scale_reaches(low, high, bottom);
    lemma_basics();
    lemma_within(scale, bottom, candle.high);
    lemma_within(scale, bottom, candle.low);
    lemma_within(scale, bottom, candle.open);
    lemma_within(scale, bottom, candle.close);
    higher_prices_lie_higher(scale, candle.open, candle.high);
    higher_prices_lie_higher(scale, candle.close, candle.high);
    higher_prices_lie_higher(scale, candle.low, candle.open);
    higher_prices_lie_higher(scale, candle.low, candle.close);
    lemma_order(candle.open, candle.close);
}

/// A price between the ends of a scale lies between nothing and one.
proof fn lemma_within(scale: Scale, bottom: Double, price: Double)
    requires
        scale.top.finite(),
        scale.range.finite(),
        scale.range.value() > 0,
        scale.range == scale.top.difference(bottom),
        bottom.finite(),
        price.finite(),
        bottom.value() <= price.value() <= scale.top.value(),
    ensures
        scale.top.difference(price).finite(),
        (Double { bits: 0 }).at_most(scale.depth_of(price)),
        scale.depth_of(price).at_most(Double { bits: ONE_BITS }),
{
    let way = scale.top.difference(price);
    let zero = Double { bits: 0 };
    lemma_basics();
    differences_keep_order(scale.top, price, scale.top, bottom);
    differences_keep_order(price, price, scale.top, price);
    lemma_own_difference(price);
    assert(0 <= way.rank() <= scale.range.rank());
    lemma_order(scale.range, zero);
    assert(way.finite());
    lemma_order(way, scale.range);
    lemma_order(zero, way);
    quotients_keep_order(way, scale.range, scale.range);
    quotients_keep_order(zero, way, scale.range);
    lemma_own_quotient(scale.range);
    lemma_zero_quotient(scale.range);
}

proof fn lemma_zero_quotient(x: Double)
    requires
        x.finite(),
        x.value() > 0,
    ensures
        (Double { bits: 0 }).quotient(x).rank() == 0,
{
    rounding::lemma_magnitude_of(0, 0);
    rounding::lemma_powers();
    rounding::lemma_magnitude_grows(0, x.code());
    let d = Double::magnitude(x.code());
    assert(0 * unit() == 0 && Double::magnitude(0) * d == 0) by (nonlinear_arith)
        requires
            Double::magnitude(0) == 0,
    ;
    rounding::lemma_nearest_exact(0, d, 0);
}

/// A constant's value, from its binary digits.
proof fn lemma_constant(bits: u64, u: int, r: int, over: nat, whole: int)
    requires
        0 < u,
        BINADE <= r < 2 * BINADE,
        bits == u * BINADE + r,
        bits < crate::double::INFINITY_CODE,
        u + over == 1074,
        whole == pow2(over),
    ensures
        (Double { bits }).finite(),
        (Double { bits }).value() == r * pow2(u as nat),
        unit() == whole * pow2(u as nat),
        pow2(u as nat) > 0,
        whole > 0,
{
    let x = Double { bits };
    assert(x.code() == bits && !x.negative());
    rounding::lemma_magnitude_of(u, r);
    lemma_pow2_adds(over, u as nat);
    lemma_pow2_pos(u as nat);
    lemma_pow2_pos(over);
}

/// The constants of the chart: eight pixels to a bar, 24 to a line, a margin of 0.08,
/// bodies of 0.62 of their place and of seven pixels at most, lines at the quarters.
pub proof fn chart_constants()
    ensures
        (Double { bits: BAR_WIDTH }).value() == 8 * unit(),
        (Double { bits: super::LINE_HEIGHT }).value() == 24 * unit(),
        (Double { bits: WIDEST_BODY }).value() == 7 * unit(),
        (Double { bits: crate::market::TWO }).value() == 2 * unit(),
        4 * (Double { bits: QUARTER }).value() == unit(),
        2 * (Double { bits: HALF }).value() == unit(),
        4 * (Double { bits: THREE_QUARTERS }).value() == 3 * unit(),
        0x100_0000 * size_of(100 * (Double { bits: MARGIN }).value() - 8 * unit()) <= unit(),
        0x1_0000 * size_of(100 * (Double { bits: BODY_PART }).value() - 62 * unit()) <= unit(),
{
    lemma2_to64();
    lemma_pow2_adds(32, 17);
    lemma_pow2_adds(32, 16);
    lemma_pow2_adds(32, 18);
    lemma_pow2_adds(32, 19);
    lemma_pow2_adds(32, 20);
    lemma_pow2_adds(32, 21);
    lemma_pow2_adds(32, 22);
    lemma_pow2_adds(32, 24);
    lemma_constant(BAR_WIDTH, 1025, 0x10_0000_0000_0000, 49, 0x2_0000_0000_0000);
    lemma_constant(super::LINE_HEIGHT, 1026, 0x18_0000_0000_0000, 48, 0x1_0000_0000_0000);
    lemma_constant(WIDEST_BODY, 1024, 0x1c_0000_0000_0000, 50, 0x4_0000_0000_0000);
    lemma_constant(crate::market::TWO, 1023, 0x10_0000_0000_0000, 51, 0x8_0000_0000_0000);
    lemma_constant(QUARTER, 1020, 0x10_0000_0000_0000, 54, 0x40_0000_0000_0000);
    lemma_constant(HALF, 1021, 0x10_0000_0000_0000, 53, 0x20_0000_0000_0000);
    lemma_constant(THREE_QUARTERS, 1021, 0x18_0000_0000_0000, 53, 0x20_0000_0000_0000);
    lemma_constant(MARGIN, 1018, 0x14_7ae1_47ae_147b, 56, 0x100_0000_0000_0000);
    lemma_constant(BODY_PART, 1021, 0x13_d70a_4000_0000, 53, 0x20_0000_0000_0000);
}

/// The specks of single precision are far below a unit.
pub proof fn lemma_specks()
    ensures
        0 < speck(),
        0x1_0000_0000 * speck() <= unit(),
{
    lemma2_to64();
    lemma_pow2_pos(948);
    lemma_pow2_adds(32, 948);
    lemma_pow2_strictly_increases(980, 1074);
}

/// A distance comes to as many bars as there are times eight pixels in it: eight times
/// the bars differ from the distance by four pixels at most, and a hundredth.
pub proof fn bars_are_eight_wide(distance: Double)
    requires
        distance.finite(),
        size_of(distance.value()) <= 0x8000 * unit(),
        distance.single_quotient(Double { bits: BAR_WIDTH }).finite(),
    ensures
        100 * size_of(8 * (bars_in(distance) * unit()) - distance.value()) <= 401 * unit(),
{
    let u = unit();
    let eight = Double { bits: BAR_WIDTH };
    let s = distance.single_quotient(eight);
    lemma_basics();
    chart_constants();
    lemma_specks();
    single_quotients_are_near(distance, eight);
    let v = s.value();
    let d = distance.value();
    assert(v * (8 * u) - d * u == (8 * v - d) * u) by (nonlinear_arith);
    assert(speck() * (8 * u) == (8 * speck()) * u) by (nonlinear_arith);
    assert(0x80_0000 * size_of(8 * v - d) <= size_of(d) + 16 * speck()) by (nonlinear_arith)
        requires
            0x80_0000 * size_of((8 * v - d) * u) <= size_of(d * u) + 2 * ((8 * speck()) * u),
            u > 0,
    ;
    let m = Double::magnitude(s.code());
    rounding::lemma_magnitude_step(s.code());
    assert(m == size_of(v));
    let n = (2 * m + u) / (2 * u);
    lemma_fundamental_div_mod(2 * m + u, 2 * u);
    assert(2 * u * n == 2 * (n * u)) by (nonlinear_arith);
    assert(2 * size_of(n * u - m) <= u);
    assert(0 <= n <= 0x1_0000) by (nonlinear_arith)
        requires
            2 * size_of(n * u - m) <= u,
            0 <= m <= 0x8000 * u,
            u > 0,
    ;
    assert(size_of(bars_in(distance) * u - v) == size_of(n * u - m)) by {
        if s.negative() {
            assert((-n) * u == -(n * u)) by (nonlinear_arith);
        }
    }
}

/// A chart that is dragged follows: the bars that it moved by, of eight pixels each,
/// come to the way from where it was taken, and dragging to the right goes to the
/// newer bars.
pub proof fn drags_follow(screen: Screen, x: Double, origin: Double, offset: nat)
    requires
        screen.chart_drag == Some((origin, offset)),
        screen.in_range(),
        x.single_difference(origin).finite(),
        size_of(x.value() - origin.value()) <= 0x4000 * unit(),
        x.single_difference(origin).single_quotient(Double { bits: BAR_WIDTH }).finite(),
    ensures
        ({
            let after = screen.dragged(x);
            let most = if screen.candles.len() > screen.chart_visible {
                screen.candles.len() - screen.chart_visible
            } else {
                0
            };
            &&& after.chart_offset <= most
            &&& after.chart_visible == screen.chart_visible && after.chart_drag == screen.chart_drag
            &&& 0 < after.chart_offset < most ==> 100 * size_of(
                8 * ((offset - after.chart_offset) * unit()) - (x.value() - origin.value()),
            ) <= 402 * unit()
        }),
{
    let way = x.single_difference(origin);
    lemma_basics();
    lemma_specks();
    assert(origin.negation().value() == -origin.value());
    single_sums_are_near(x, origin.negation());
    bars_are_eight_wide(way);
}

/// A scroll by lines counts 24 pixels to a line.
pub proof fn lines_are_24_high(x: Double, y: Double)
    requires
        x.single_product(Double { bits: super::LINE_HEIGHT }).finite(),
        y.single_product(Double { bits: super::LINE_HEIGHT }).finite(),
    ensures
        ({
            let (across, up) = (super::Scroll::Lines { x, y }).pixels();
            &&& 0x80_0000 * size_of(across.value() - 24 * x.value()) <= 24 * size_of(x.value()) + 2
                * speck()
            &&& 0x80_0000 * size_of(up.value() - 24 * y.value()) <= 24 * size_of(y.value()) + 2
                * speck()
        }),
        (super::Scroll::Pixels { x, y }).pixels() == (x, y),
{
    lemma_times(x, Double { bits: super::LINE_HEIGHT }, 24);
    lemma_times(y, Double { bits: super::LINE_HEIGHT }, 24);
}

/// A product with a whole number, in single precision.
proof fn lemma_times(x: Double, k: Double, n: int)
    requires
        x.single_product(k).finite(),
        k == (Double { bits: super::LINE_HEIGHT }) && n == 24,
    ensures
        0x80_0000 * size_of(x.single_product(k).value() - n * x.value()) <= n * size_of(x.value())
            + 2 * speck(),
{
    let u = unit();
    lemma_basics();
    chart_constants();
    single_products_are_near(x, k);
    let v = x.single_product(k).value();
    let w = x.value();
    assert(v * u - w * (24 * u) == (v - 24 * w) * u) by (nonlinear_arith);
    assert(w * (24 * u) == (24 * w) * u) by (nonlinear_arith);
    assert(0x80_0000 * size_of(v - 24 * w) <= size_of(24 * w) + 2 * speck()) by (nonlinear_arith)
        requires
            0x80_0000 * size_of((v - 24 * w) * u) <= size_of((24 * w) * u) + 2 * (speck() * u),
            u > 0,
    ;
}

/// The chart leaves 0.08 of its prices' range above them, to within a hundredth of the
/// range, where numbers lie close enough.
#[verifier::rlimit(40)]
pub proof fn scales_leave_a_margin(low: Double, high: Double)
    requires
        low.finite(),
        high.finite(),
        high.value() - low.value() >= unit(),
        scale_between(low, high).top.finite(),
        1_000 * scale_between(low, high).top.gap() <= high.value() - low.value(),
    ensures
        size_of(
            100 * (scale_between(low, high).top.value() - high.value()) - 8 * (high.value()
                - low.value()),
        ) <= high.value() - low.value(),
{
    let pad = high.difference(low).product(Double { bits: MARGIN });
    let top = high.sum(pad);
    lemma_not_flat(low, high);
    assert(scale_between(low, high).top == top);
    sum_is_near(high, pad);
    lemma_pad_is_near(low, high);
}

/// The chart leaves such a margin below its prices, too: its height comes to 1.16 times
/// their range, to within a hundredth of it, where numbers lie close enough.
#[verifier::rlimit(40)]
pub proof fn scales_leave_margins_on_both_sides(low: Double, high: Double)
    requires
        low.finite(),
        high.finite(),
        high.value() - low.value() >= unit(),
        scale_between(low, high).top.finite(),
        scale_between(low, high).range.finite(),
        1_000 * scale_between(low, high).top.gap() <= high.value() - low.value(),
        1_000 * low.difference(
            high.difference(low).product(Double { bits: MARGIN }),
        ).gap() <= high.value() - low.value(),
    ensures
        size_of(
            100 * scale_between(low, high).range.value() - 116 * (high.value() - low.value()),
        ) <= high.value() - low.value(),
{
    let scale = scale_between(low, high);
    let pad = high.difference(low).product(Double { bits: MARGIN });
    let bottom = low.difference(pad);
    lemma_not_flat(low, high);
    assert(scale.top == high.sum(pad));
    assert(scale.range == scale.top.difference(bottom));
    sum_is_near(high, pad);
    lemma_pad_is_near(low, high);
    lemma_difference(scale.top, bottom);
    lemma_difference(low, pad);
    gap_is_small(scale.range);
    rounding::lemma_magnitude_step(scale.range.code());
    lemma_large_unit();
    lemma_both_margins(
        high.value() - low.value(),
        high.value(),
        low.value(),
        pad.value(),
        scale.top.value(),
        bottom.value(),
        scale.range.value(),
        scale.top.gap(),
        bottom.gap(),
        scale.range.gap(),
    );
}

proof fn lemma_both_margins(
    w: int,
    h: int,
    l: int,
    p: int,
    t: int,
    b: int,
    r: int,
    top_gap: int,
    bottom_gap: int,
    gap: int,
)
    requires
        w == h - l,
        w >= 0x100_0000_0000_0000,
        0x1_0000 * size_of(100 * p - 8 * w) <= w,
        2 * size_of(t - (h + p)) <= top_gap,
        2 * size_of(b - (l - p)) <= bottom_gap,
        2 * size_of(r - (t - b)) <= gap,
        1_000 * top_gap <= w,
        1_000 * bottom_gap <= w,
        gap == 1 || gap * BINADE <= size_of(r),
    ensures
        size_of(100 * r - 116 * w) <= w,
{
    assert(1_000 * gap <= w);
}

/// A range of one or more is not widened.
proof fn lemma_not_flat(low: Double, high: Double)
    requires
        low.finite(),
        high.finite(),
        high.value() - low.value() >= unit(),
    ensures
        !high.difference(low).absolute().below(Double { bits: EPSILON }),
{
    let zero = Double { bits: 0 };
    let one = Double { bits: ONE_BITS };
    lemma_basics();
    differences_keep_order(one, zero, high, low);
    lemma_minus_zero(one);
    let way = high.difference(low);
    assert(way.absolute().rank() == way.rank());
    assert((Double { bits: EPSILON }).rank() == EPSILON);
}

/// A margin is 0.08 of the range.
proof fn lemma_pad_is_near(low: Double, high: Double)
    requires
        low.finite(),
        high.finite(),
        high.value() - low.value() >= unit(),
        high.difference(low).product(Double { bits: MARGIN }).finite(),
    ensures
        0x1_0000 * size_of(
            100 * high.difference(low).product(Double { bits: MARGIN }).value() - 8 * (high.value()
                - low.value()),
        ) <= high.value() - low.value(),
{
    let margin = Double { bits: MARGIN };
    let way = high.difference(low);
    let pad = way.product(margin);
    lemma_basics();
    chart_constants();
    product_is_near(way, margin);
    lemma_difference(high, low);
    gap_is_small(way);
    gap_is_small(pad);
    rounding::lemma_magnitude_step(way.code());
    rounding::lemma_magnitude_step(pad.code());
    lemma_large_unit();
    differences_keep_order(low, low, high, low);
    lemma_own_difference(low);
    lemma_order(Double { bits: 0 }, way);
    assert(way.value() >= 0);
    lemma_margin(
        high.value() - low.value(),
        way.value(),
        way.gap(),
        pad.value(),
        pad.gap(),
        margin.value(),
    );
}

/// What a margin of 0.08 misses is little.
proof fn lemma_margin(w: int, v: int, gap: int, p: int, g: int, m: int)
    requires
        w >= unit() >= 0x100_0000_0000_0000,
        2 * size_of(v - w) <= gap,
        gap == 1 || gap * BINADE <= v,
        g == 1 || g * BINADE <= size_of(p),
        2 * size_of(p * unit() - v * m) <= g * unit(),
        0x100_0000 * size_of(100 * m - 8 * unit()) <= unit(),
    ensures
        0x1_0000 * size_of(100 * p - 8 * w) <= w,
{
    let u = unit();
    assert(0x1000_0000 * size_of(v - w) <= w);
    let e = 100 * m - 8 * u;
    assert(100 * (v * m) == (8 * v) * u + v * e) by (nonlinear_arith)
        requires
            e == 100 * m - 8 * u,
    ;
    assert(0x100_0000 * size_of(v * e) <= v * u) by (nonlinear_arith)
        requires
            0x100_0000 * size_of(e) <= u,
            v >= 0,
    ;
    let miss = 100 * p - 8 * v;
    assert(miss * u == 100 * (p * u) - (8 * v) * u) by (nonlinear_arith)
        requires
            miss == 100 * p - 8 * v,
    ;
    let slip = p * u - v * m;
    let extra = v * e;
    let gu = g * u;
    let vu = v * u;
    assert(miss * u == 100 * slip + extra);
    assert(2 * size_of(slip) <= gu);
    assert(0x100_0000 * size_of(extra) <= vu);
    assert(0x100_0000 * size_of(miss * u) <= 838_860_800 * gu + vu);
    assert(0x100_0000 * size_of(miss) <= 838_860_800 * g + v) by (nonlinear_arith)
        requires
            0x100_0000 * size_of(miss * u) <= 838_860_800 * gu + vu,
            gu == g * u,
            vu == v * u,
            u > 0,
    ;
    assert(v <= 2 * w);
    assert(size_of(p) <= v);
    assert(0x1_0000_0000 * g <= w);
}

proof fn lemma_large_unit()
    ensures
        unit() >= 0x100_0000_0000_0000,
{
    lemma2_to64();
    lemma_pow2_adds(32, 24);
    lemma_pow2_strictly_increases(56, 1074);
}

} // verus!
