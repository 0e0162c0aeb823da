//! How the shapes of a chart's picture lie to each other.

use super::chart::{excess, whole_single, PlottedBar};
use super::picture::{
    body_width, grid_lines, level_at, paintable, shape_of, shapes, single_of, slot_middle,
    slot_width, stretch, Area, BODY_PART, HALF, QUARTER, THREE_QUARTERS, WIDEST_BODY,
};
use super::plots::{chart_constants, lemma_basics, lemma_specks};
use crate::double::convert::ONE_BITS;
use crate::double::decimal::nearest_even;
use crate::double::laws::{size_of, unit, whole_numbers_have_codes};
use crate::double::ordering::{
    differences_keep_order, lemma_single_finite, lemma_single_signs, products_keep_order,
    single_products_are_near, single_quotients_are_near, single_sums_are_near, singles_keep_order,
    speck, sums_keep_order,
};
use crate::double::{rounding, Double};
use crate::market::laws::lemma_order;
use vstd::arithmetic::power2::*;
use vstd::prelude::*;

verus! {

/// A part of the height that is no smaller lies no higher.
proof fn lemma_levels(bounds: Area, a: Double, b: Double)
    requires
        bounds.height.value() > 0,
        level_at(bounds, a).finite(),
        level_at(bounds, b).finite(),
        a.at_most(b),
    ensures
        level_at(bounds, a).value() <= level_at(bounds, b).value(),
{
    let x = a.single();
    let y = b.single();
    let p = x.single_product(bounds.height);
    let q = y.single_product(bounds.height);
    single_sums_are_near(bounds.y, p);
    single_sums_are_near(bounds.y, q);
    single_products_are_near(x, bounds.height);
    single_products_are_near(y, bounds.height);
    singles_keep_order(a, b);
    lemma_order(x, y);
    products_keep_order(x, y, bounds.height);
    singles_keep_order(x.product(bounds.height), y.product(bounds.height));
    lemma_order(p, q);
    sums_keep_order(bounds.y, p, bounds.y, q);
    singles_keep_order(bounds.y.sum(p), bounds.y.sum(q));
    lemma_order(level_at(bounds, a), level_at(bounds, b));
}

/// Stretches are one pixel long at least, and begin at the upper end.
proof fn lemma_stretch(a: Double, b: Double)
    requires
        a.finite(),
        b.finite(),
        a.single_difference(b).finite(),
    ensures
        stretch(a, b).0.finite(),
        stretch(a, b).1.finite(),
        stretch(a, b).0.value() == if b.value() < a.value() {
            b.value()
        } else {
            a.value()
        },
        stretch(a, b).1.value() >= unit(),
        stretch(a, b).1.value() >= size_of(a.single_difference(b).value()),
        stretch(a, b).1.value() == unit() || stretch(a, b).1.value() == size_of(
            a.single_difference(b).value(),
        ),
{
    let way = a.single_difference(b);
    lemma_basics();
    rounding::lemma_magnitude_step(way.code());
    assert(way.absolute().code() == way.code() && !way.absolute().negative());
    lemma_order(b, a);
    lemma_order(way.absolute(), Double { bits: ONE_BITS });
}

/// A stretch is as long as the way between its ends, in single precision, or one pixel.
pub proof fn stretches_reach(a: Double, b: Double)
    requires
        a.finite(),
        b.finite(),
        a.single_difference(b).finite(),
    ensures
        ({
            let (start, length) = stretch(a, b);
            let way = size_of(a.value() - b.value());
            &&& start.value() <= a.value() && start.value() <= b.value()
            &&& start.value() == a.value() || start.value() == b.value()
            &&& length.value() >= unit()
            &&& length.value() == unit() || 0x80_0000 * size_of(length.value() - way) <= way + 2
                * speck()
            &&& 0x80_0000 * (way - length.value()) <= way + 2 * speck()
        }),
{
    lemma_stretch(a, b);
    assert(b.negation().value() == -b.value());
    single_sums_are_near(a, b.negation());
}

/// The wick of a bar begins no lower than its body, and is no shorter.
#[verifier::rlimit(40)]
pub proof fn wicks_reach_around_bodies(bounds: Area, count: nat, index: nat, bar: PlottedBar)
    requires
        bounds.height.value() > 0,
        bar.high.at_most(bar.open),
        bar.high.at_most(bar.close),
        bar.open.at_most(bar.low),
        bar.close.at_most(bar.low),
        level_at(bounds, bar.high).finite(),
        level_at(bounds, bar.low).finite(),
        level_at(bounds, bar.open).finite(),
        level_at(bounds, bar.close).finite(),
        level_at(bounds, bar.high).single_difference(level_at(bounds, bar.low)).finite(),
        level_at(bounds, bar.open).single_difference(level_at(bounds, bar.close)).finite(),
    ensures
        ({
            let shape = shape_of(bounds, count, index, bar);
            &&& shape.wick.y.value() == level_at(bounds, bar.high).value()
            &&& shape.wick.y.value() <= shape.body.y.value()
            &&& shape.body.height.value() <= shape.wick.height.value()
            &&& shape.body.height.value() >= unit()
            &&& shape.wick.width.value() == unit()
            &&& shape.rises == bar.rises
        }),
{
    let high = level_at(bounds, bar.high);
    let low = level_at(bounds, bar.low);
    let open = level_at(bounds, bar.open);
    let close = level_at(bounds, bar.close);
    lemma_basics();
    lemma_levels(bounds, bar.high, bar.open);
    lemma_levels(bounds, bar.high, bar.close);
    lemma_levels(bounds, bar.open, bar.low);
    lemma_levels(bounds, bar.close, bar.low);
    lemma_stretch(high, low);
    lemma_stretch(open, close);
    lemma_ways(high, low, open, close);
}

/// Of two ways the longer one is no shorter in single precision.
proof fn lemma_ways(high: Double, low: Double, open: Double, close: Double)
    requires
        high.finite(),
        low.finite(),
        open.finite(),
        close.finite(),
        high.value() <= open.value() <= low.value(),
        high.value() <= close.value() <= low.value(),
        high.single_difference(low).finite(),
        open.single_difference(close).finite(),
    ensures
        size_of(open.single_difference(close).value()) <= size_of(
            high.single_difference(low).value(),
        ),
{
    let wide = high.single_difference(low);
    let narrow = open.single_difference(close);
    lemma_basics();
    rounding::lemma_magnitude_step(wide.code());
    rounding::lemma_magnitude_step(narrow.code());
    lemma_single_finite(high.difference(low));
    lemma_single_finite(open.difference(close));
    differences_keep_order(high, low, open, close);
    singles_keep_order(high.difference(low), open.difference(close));
    differences_keep_order(open, close, low, high);
    singles_keep_order(open.difference(close), low.difference(high));
    lemma_turned(high, low);
    assert(low.single_difference(high).rank() == -wide.rank());
    assert(low.single_difference(high).code() == wide.code());
    let back = low.single_difference(high);
    assert(back.value() == -wide.value());
    lemma_order(wide, narrow);
    lemma_order(narrow, back);
}

/// The way back is the same way with the other sign.
#[verifier::rlimit(40)]
proof fn lemma_turned_difference(a: Double, b: Double)
    requires
        a.finite(),
        b.finite(),
    ensures
        !a.difference(b).nan(),
        !b.difference(a).nan(),
        a.difference(b).code() == b.difference(a).code(),
        a.difference(b).code() > 0 ==> a.difference(b).negative() != b.difference(a).negative(),
{
    assert(a.negation().code() == a.code() && a.negation().negative() == !a.negative());
    assert(b.negation().code() == b.code() && b.negation().negative() == !b.negative());
    assert(a.negation().value() == -a.value() && b.negation().value() == -b.value());
    let exact = a.value() - b.value();
    rounding::nearest_code_exists(size_of(exact), 1);
}

proof fn lemma_turned(a: Double, b: Double)
    requires
        a.finite(),
        b.finite(),
        a.single_difference(b).finite(),
    ensures
        b.single_difference(a).rank() == -a.single_difference(b).rank(),
        b.single_difference(a).code() == a.single_difference(b).code(),
        b.single_difference(a).value() == -a.single_difference(b).value(),
{
    let x = a.difference(b);
    let y = b.difference(a);
    lemma_turned_difference(a, b);
    lemma_single_signs(x, y);
    if x.code() == 0 {
        singles_keep_order(x, x);
        rounding::lemma_magnitude_of(0, 0);
        rounding::lemma_powers();
    }
}

/// A small count in single precision is itself.
proof fn lemma_count(n: nat)
    requires
        n < 0x100_0000,
    ensures
        single_of(n).finite(),
        single_of(n).value() == n * unit(),
{
    lemma2_to64();
    assert(whole_single(n) == n) by {
        assert(excess(n) == 0 && pow2(0) == 1);
        assert(n as int / 1 == n && n as int % 1 == 0);
        let m = nearest_even(n as int, pow2(excess(n)) as int);
        assert(m == n);
        vstd::arithmetic::mul::lemma_mul_basics(m);
    }
    let code = whole_numbers_have_codes(n as int);
    assert(n * unit() == Double::magnitude(code) * 1);
    rounding::lemma_nearest_exact(n * unit(), 1, code);
}

/// The places of so many bars have the width of the picture together, to within one
/// part in four million.
pub proof fn slots_share_the_width(bounds: Area, count: nat)
    requires
        0 < count < 0x1_0000,
        slot_width(bounds, count).finite(),
        bounds.width.value() >= unit(),
    ensures
        0x40_0000 * size_of(count * slot_width(bounds, count).value() - bounds.width.value())
            <= bounds.width.value(),
{
    let u = unit();
    let n = count as int;
    let s = slot_width(bounds, count).value();
    let w = bounds.width.value();
    lemma_basics();
    lemma_specks();
    lemma_count(count);
    assert(n * u > 0) by (nonlinear_arith)
        requires
            n > 0,
            u > 0,
    ;
    single_quotients_are_near(bounds.width, single_of(count));
    assert(s * (n * u) - w * u == (n * s - w) * u) by (nonlinear_arith);
    assert(speck() * (n * u) == (n * speck()) * u) by (nonlinear_arith);
    assert(0x80_0000 * size_of(n * s - w) <= size_of(w) + 2 * (n * speck())) by (nonlinear_arith)
        requires
            0x80_0000 * size_of((n * s - w) * u) <= size_of(w * u) + 2 * ((n * speck()) * u),
            u > 0,
    ;
    assert(n * speck() <= 0x1_0000 * speck()) by (nonlinear_arith)
        requires
            0 < n < 0x1_0000,
            speck() > 0,
    ;
}

/// Bars stand from left to right.
pub proof fn bars_stand_in_order(
    bounds: Area,
    count: nat,
    i: nat,
    j: nat,
    one: PlottedBar,
    other: PlottedBar,
)
    requires
        i <= j < 0x100_0000,
        slot_width(bounds, count).value() > 0,
        shape_of(bounds, count, i, one).wick.x.finite(),
        shape_of(bounds, count, j, other).wick.x.finite(),
    ensures
        shape_of(bounds, count, i, one).wick.x.value() <= shape_of(
            bounds,
            count,
            j,
            other,
        ).wick.x.value(),
{
    let slot = slot_width(bounds, count);
    let half = slot.single_quotient(Double { bits: crate::market::TWO });
    let a = single_of(i);
    let b = single_of(j);
    let p = a.single_product(slot);
    let q = b.single_product(slot);
    let x = bounds.x.single_sum(p);
    let y = bounds.x.single_sum(q);
    single_sums_are_near(x, half);
    single_sums_are_near(y, half);
    single_sums_are_near(bounds.x, p);
    single_sums_are_near(bounds.x, q);
    single_products_are_near(a, slot);
    single_products_are_near(b, slot);
    lemma_count(i);
    lemma_count(j);
    lemma_basics();
    assert(i * unit() <= j * unit()) by (nonlinear_arith)
        requires
            i <= j,
            unit() > 0,
    ;
    products_keep_order(a, b, slot);
    singles_keep_order(a.product(slot), b.product(slot));
    lemma_order(p, q);
    sums_keep_order(bounds.x, p, bounds.x, q);
    singles_keep_order(bounds.x.sum(p), bounds.x.sum(q));
    lemma_order(x, y);
    sums_keep_order(x, half, y, half);
    singles_keep_order(x.sum(half), y.sum(half));
    lemma_order(slot_middle(bounds, slot, i), slot_middle(bounds, slot, j));
}

/// A body is at least one pixel wide and at most seven, and between these 0.62 of its
/// place, to within a ten-thousandth.
pub proof fn bodies_take_their_part(slot: Double)
    requires
        slot.finite(),
        unit() <= slot.value() <= 0x1_0000 * unit(),
        slot.single_product(Double { bits: BODY_PART }).finite(),
    ensures
        ({
            let width = body_width(slot).value();
            &&& unit() <= width <= 7 * unit()
            &&& width == unit() && 1_000_000 * (62 * slot.value() - 100 * width) <= 100
                * slot.value() || width == 7 * unit() && 1_000_000 * (100 * width - 62
                * slot.value()) <= 100 * slot.value() || 1_000_000 * size_of(
                100 * width - 62 * slot.value(),
            ) <= 100 * slot.value()
        }),
{
    let u = unit();
    let share = Double { bits: BODY_PART };
    let part = slot.single_product(share);
    lemma_basics();
    lemma_specks();
    chart_constants();
    single_products_are_near(slot, share);
    let w = slot.value();
    let b = share.value();
    let v = part.value();
    let e = 100 * b - 62 * u;
    assert(w * b * 100 == (62 * w) * u + w * e) by (nonlinear_arith)
        requires
            e == 100 * b - 62 * u,
    ;
    assert(0x1_0000 * size_of(w * e) <= w * u) by (nonlinear_arith)
        requires
            0x1_0000 * size_of(e) <= u,
            w >= 0,
    ;
    let miss = 100 * v - 62 * w;
    assert(miss * u == 100 * (v * u) - (62 * w) * u) by (nonlinear_arith)
        requires
            miss == 100 * v - 62 * w,
    ;
    assert((62 * w) * u == 62 * (w * u) && w * u >= u * u && w * u > 0) by (nonlinear_arith)
        requires
            w >= u,
            u > 0,
    ;
    assert(0x1_0000_0000 * (speck() * u) <= u * u) by (nonlinear_arith)
        requires
            0x1_0000_0000 * speck() <= u,
            u > 0,
    ;
    assert(1_000_000 * size_of(miss * u) <= 100 * (w * u));
    assert(1_000_000 * size_of(miss) <= 100 * w) by (nonlinear_arith)
        requires
            1_000_000 * size_of(miss * u) <= 100 * (w * u),
            u > 0,
    ;
    lemma_order(part, Double { bits: ONE_BITS });
    lemma_order(Double { bits: WIDEST_BODY }, part);
}

/// The lines of the grid lie at the quarters of the height, to within one part in a
/// million, across the whole width, one pixel high.
#[verifier::rlimit(40)]
pub proof fn grid_lies_at_the_quarters(bounds: Area, k: int)
    requires
        1 <= k <= 3,
        bounds.height.value() >= 0,
        grid_lines(bounds)[k - 1].y.finite(),
    ensures
        grid_lines(bounds).len() == 3,
        grid_lines(bounds)[k - 1].x == bounds.x,
        grid_lines(bounds)[k - 1].width == bounds.width,
        grid_lines(bounds)[k - 1].height.value() == unit(),
        0x10_0000 * size_of(
            4 * (grid_lines(bounds)[k - 1].y.value() - bounds.y.value()) - k
                * bounds.height.value(),
        ) <= size_of(bounds.y.value()) + bounds.height.value() + 8 * speck(),
{
    let u = unit();
    let part = if k == 1 {
        Double { bits: QUARTER }
    } else if k == 2 {
        Double { bits: HALF }
    } else {
        Double { bits: THREE_QUARTERS }
    };
    lemma_basics();
    chart_constants();
    let down = bounds.height.single_product(part);
    single_sums_are_near(bounds.y, down);
    single_products_are_near(bounds.height, part);
    let h = bounds.height.value();
    let d = down.value();
    let f = part.value();
    assert(4 * f == k * u);
    assert(4 * (h * f) == (k * h) * u) by (nonlinear_arith)
        requires
            4 * f == k * u,
    ;
    assert(4 * (d * u) == (4 * d) * u) by (nonlinear_arith);
    assert((4 * d) * u - (k * h) * u == (4 * d - k * h) * u) by (nonlinear_arith);
    assert(4 * size_of(h * f) == size_of((k * h) * u));
    assert(0x80_0000 * size_of(4 * d - k * h) <= size_of(k * h) + 8 * speck()) by (nonlinear_arith)
        requires
            0x80_0000 * size_of((4 * d - k * h) * u) <= size_of((k * h) * u) + 8 * (speck() * u),
            u > 0,
    ;
    assert(0 <= k * h <= 3 * h) by (nonlinear_arith)
        requires
            1 <= k <= 3,
            h >= 0,
    ;
    lemma_specks();
}

/// There is a shape for every bar, and a picture only of two bars or more in more than
/// one pixel.
pub proof fn every_bar_has_a_shape(bounds: Area, bars: Seq<PlottedBar>, i: int)
    requires
        bounds.width.finite(),
        bounds.height.finite(),
    ensures
        shapes(bounds, bars).len() == bars.len(),
        0 <= i < bars.len() ==> shapes(bounds, bars)[i].rises == bars[i].rises,
        paintable(bounds, bars.len()) == (bars.len() >= 2 && bounds.width.value() > unit()
            && bounds.height.value() > unit()),
{
    lemma_basics();
    lemma_order(bounds.width, Double { bits: ONE_BITS });
    lemma_order(bounds.height, Double { bits: ONE_BITS });
}

/// Half of a number, in single precision.
proof fn lemma_half(x: Double)
    requires
        x.single_quotient(Double { bits: crate::market::TWO }).finite(),
    ensures
        x.finite(),
        0x80_0000 * size_of(
            2 * x.single_quotient(Double { bits: crate::market::TWO }).value() - x.value(),
        ) <= size_of(x.value()) + 4 * speck(),
{
    let u = unit();
    let two = Double { bits: crate::market::TWO };
    lemma_basics();
    chart_constants();
    single_quotients_are_near(x, two);
    let h = x.single_quotient(two).value();
    let v = x.value();
    assert(h * (2 * u) - v * u == (2 * h - v) * u) by (nonlinear_arith);
    assert(speck() * (2 * u) == (2 * speck()) * u) by (nonlinear_arith);
    assert(0x80_0000 * size_of(2 * h - v) <= size_of(v) + 4 * speck()) by (nonlinear_arith)
        requires
            0x80_0000 * size_of((2 * h - v) * u) <= size_of(v * u) + 2 * ((2 * speck()) * u),
            u > 0,
    ;
}

/// A way in single precision.
proof fn lemma_way(a: Double, b: Double)
    requires
        a.single_difference(b).finite(),
    ensures
        a.finite(),
        b.finite(),
        0x80_0000 * size_of(a.single_difference(b).value() - (a.value() - b.value())) <= size_of(
            a.value() - b.value(),
        ) + 2 * speck(),
{
    assert(b.negation().code() == b.code() && b.negation().negative() == !b.negative());
    assert(b.negation().value() == -b.value());
    single_sums_are_near(a, b.negation());
}

/// Half a width to the left.
proof fn lemma_centred(x: Double, width: Double)
    requires
        x.single_difference(width.single_quotient(Double { bits: crate::market::TWO })).finite(),
    ensures
        0x20_0000 * size_of(
            2 * (x.value() - x.single_difference(
                width.single_quotient(Double { bits: crate::market::TWO }),
            ).value()) - width.value(),
        ) <= size_of(x.value()) + size_of(width.value()) + 4 * speck(),
{
    let half = width.single_quotient(Double { bits: crate::market::TWO });
    lemma_way(x, half);
    lemma_half(width);
    lemma_specks();
}

/// A body is centred on its wick: it begins half its width to the left of it, to within
/// one part in two million.
pub proof fn bodies_are_centred(bounds: Area, count: nat, index: nat, bar: PlottedBar)
    requires
        shape_of(bounds, count, index, bar).body.x.finite(),
    ensures
        ({
            let shape = shape_of(bounds, count, index, bar);
            let x = shape.wick.x.value();
            let width = shape.body.width.value();
            0x20_0000 * size_of(2 * (x - shape.body.x.value()) - width) <= size_of(x) + size_of(
                width,
            ) + 4 * speck()
        }),
{
    let shape = shape_of(bounds, count, index, bar);
    lemma_centred(shape.wick.x, shape.body.width);
}

/// A wick stands in the middle of its place: so many places, and half a one, to the
/// right of the picture's left end, to within one part in a million.
#[verifier::rlimit(40)]
pub proof fn wicks_stand_in_the_middle(bounds: Area, count: nat, index: nat, bar: PlottedBar)
    requires
        index < 0x100_0000,
        slot_width(bounds, count).value() > 0,
        shape_of(bounds, count, index, bar).wick.x.finite(),
    ensures
        ({
            let slot = slot_width(bounds, count).value();
            let x = shape_of(bounds, count, index, bar).wick.x.value();
            0x10_0000 * size_of(2 * (x - bounds.x.value()) - (2 * (index * slot) + slot)) <= size_of(
                bounds.x.value(),
            ) + (index * slot) + slot + 8 * speck()
        }),
{
    let u = unit();
    let slot = slot_width(bounds, count);
    let half = slot.single_quotient(Double { bits: crate::market::TWO });
    let n = single_of(index);
    let part = n.single_product(slot);
    let start = bounds.x.single_sum(part);
    single_sums_are_near(start, half);
    single_sums_are_near(bounds.x, part);
    single_products_are_near(n, slot);
    lemma_half(slot);
    lemma_count(index);
    lemma_basics();
    lemma_specks();
    let s = slot.value();
    let k = index as int;
    let p = part.value();
    assert((k * u) * s == (k * s) * u) by (nonlinear_arith);
    assert(p * u - (k * s) * u == (p - k * s) * u) by (nonlinear_arith);
    assert(0x80_0000 * size_of(p - k * s) <= size_of(k * s) + 2 * speck()) by (nonlinear_arith)
        requires
            0x80_0000 * size_of((p - k * s) * u) <= size_of((k * s) * u) + 2 * (speck() * u),
            u > 0,
    ;
    assert(k * s >= 0) by (nonlinear_arith)
        requires
            k >= 0,
            s > 0,
    ;
}

} // verus!
