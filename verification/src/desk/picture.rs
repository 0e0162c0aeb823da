//! The chart on the screen: rectangles in pixels, which are numbers of single
//! precision.

use super::chart::{plot_candles, plotted, round_single, whole_single, PlottedBar};
use crate::double::convert::ONE_BITS;
use crate::double::Double;
use crate::market::{Candle, TWO};
use vstd::prelude::*;

verus! {

/// 0.62 in single precision, the part of its slot that a bar's body fills.
pub const BODY_PART: u64 = 0x3fe3_d70a_4000_0000;

/// The widest body, in pixels: seven.
pub const WIDEST_BODY: u64 = 0x401c_0000_0000_0000;

pub const QUARTER: u64 = 0x3fd0_0000_0000_0000;

pub const HALF: u64 = 0x3fe0_0000_0000_0000;

pub const THREE_QUARTERS: u64 = 0x3fe8_0000_0000_0000;

/// A rectangle: its corner at the top left and its size.
#[derive(Clone, Copy, Debug)]
pub struct Area {
    pub x: Double,
    pub y: Double,
    pub width: Double,
    pub height: Double,
}

/// A bar: the line from its high to its low, the body from its open to its close,
/// and whether it closes no lower than it opens.
#[derive(Clone, Copy, Debug)]
pub struct BarShape {
    pub wick: Area,
    pub body: Area,
    pub rises: bool,
}

/// What is painted: the lines of the grid, then the bars.
#[derive(Debug)]
pub struct Picture {
    pub grid: Vec<Area>,
    pub bars: Vec<BarShape>,
}

/// There is something to paint, and room for it.
pub open spec fn paintable(bounds: Area, count: nat) -> bool {
    let one = Double { bits: ONE_BITS };
    count >= 2 && !bounds.width.at_most(one) && !bounds.height.at_most(one)
}

/// A whole number in single precision.
pub open spec fn single_of(n: nat) -> Double {
    Double::of_integer(whole_single(n) as int)
}

/// The width that each of so many bars has.
pub open spec fn slot_width(bounds: Area, count: nat) -> Double {
    bounds.width.single_quotient(single_of(count))
}

/// The width of a bar's body.
pub open spec fn body_width(slot: Double) -> Double {
    let one = Double { bits: ONE_BITS };
    let widest = Double { bits: WIDEST_BODY };
    let part = slot.single_product(Double { bits: BODY_PART });
    if part.below(one) {
        one
    } else if widest.below(part) {
        widest
    } else {
        part
    }
}

/// The middle of a bar's slot.
pub open spec fn slot_middle(bounds: Area, slot: Double, index: nat) -> Double {
    bounds.x.single_sum(single_of(index).single_product(slot)).single_sum(
        slot.single_quotient(Double { bits: TWO }),
    )
}

/// The place of a part of the height.
pub open spec fn level_at(bounds: Area, depth: Double) -> Double {
    bounds.y.single_sum(depth.single().single_product(bounds.height))
}

/// The stretch between two places, at least one pixel long.
pub open spec fn stretch(a: Double, b: Double) -> (Double, Double) {
    (a.smaller(b), a.single_difference(b).absolute().larger(Double { bits: ONE_BITS }))
}

/// The shape of a bar.
pub open spec fn shape_of(bounds: Area, count: nat, index: nat, bar: PlottedBar) -> BarShape {
    let slot = slot_width(bounds, count);
    let x = slot_middle(bounds, slot, index);
    let width = body_width(slot);
    let wick = stretch(level_at(bounds, bar.high), level_at(bounds, bar.low));
    let body = stretch(level_at(bounds, bar.open), level_at(bounds, bar.close));
    BarShape {
        wick: Area { x, y: wick.0, width: Double { bits: ONE_BITS }, height: wick.1 },
        body: Area {
            x: x.single_difference(width.single_quotient(Double { bits: TWO })),
            y: body.0,
            width,
            height: body.1,
        },
        rises: bar.rises,
    }
}

/// A line of the grid.
pub open spec fn grid_line(bounds: Area, fraction: Double) -> Area {
    Area {
        x: bounds.x,
        y: bounds.y.single_sum(bounds.height.single_product(fraction)),
        width: bounds.width,
        height: Double { bits: ONE_BITS },
    }
}

pub open spec fn grid_lines(bounds: Area) -> Seq<Area> {
    seq![
        grid_line(bounds, Double { bits: QUARTER }),
        grid_line(bounds, Double { bits: HALF }),
        grid_line(bounds, Double { bits: THREE_QUARTERS }),
    ]
}

/// The shapes of all bars.
pub open spec fn shapes(bounds: Area, bars: Seq<PlottedBar>) -> Seq<BarShape> {
    Seq::new(bars.len(), |i: int| shape_of(bounds, bars.len(), i as nat, bars[i]))
}

fn count_single(n: usize) -> (result: Double)
    ensures
        result == single_of(n as nat),
{
    Double::from_wide(round_single(n as u128))
}

fn find_level(bounds: Area, depth: Double) -> (result: Double)
    ensures
        result == level_at(bounds, depth),
{
    bounds.y.single_plus(depth.to_single().single_times(bounds.height))
}

fn find_stretch(a: Double, b: Double) -> (result: (Double, Double))
    ensures
        result == stretch(a, b),
{
    (a.min(b), a.single_minus(b).abs().max(Double { bits: ONE_BITS }))
}

fn find_body_width(slot: Double) -> (result: Double)
    ensures
        result == body_width(slot),
{
    let one: Double = Double { bits: ONE_BITS };
    let widest: Double = Double { bits: WIDEST_BODY };
    let part: Double = slot.single_times(Double { bits: BODY_PART });
    if part.is_below(one) {
        one
    } else if widest.is_below(part) {
        widest
    } else {
        part
    }
}

fn shape_bar(bounds: Area, count: usize, index: usize, bar: PlottedBar) -> (shape: BarShape)
    ensures
        shape == shape_of(bounds, count as nat, index as nat, bar),
{
    let one: Double = Double { bits: ONE_BITS };
    let two: Double = Double { bits: TWO };
    let slot: Double = bounds.width.single_over(count_single(count));
    let x: Double = bounds.x.single_plus(count_single(index).single_times(slot)).single_plus(
        slot.single_over(two),
    );
    let width: Double = find_body_width(slot);
    let wick: (Double, Double) = find_stretch(
        find_level(bounds, bar.high),
        find_level(bounds, bar.low),
    );
    let body: (Double, Double) = find_stretch(
        find_level(bounds, bar.open),
        find_level(bounds, bar.close),
    );
    BarShape {
        wick: Area { x, y: wick.0, width: one, height: wick.1 },
        body: Area {
            x: x.single_minus(width.single_over(two)),
            y: body.0,
            width,
            height: body.1,
        },
        rises: bar.rises,
    }
}

fn draw_line(bounds: Area, fraction: u64) -> (line: Area)
    ensures
        line == grid_line(bounds, Double { bits: fraction }),
{
    Area {
        x: bounds.x,
        y: bounds.y.single_plus(bounds.height.single_times(Double { bits: fraction })),
        width: bounds.width,
        height: Double { bits: ONE_BITS },
    }
}

/// What is painted of some bars within a rectangle; nothing where there are fewer
/// than two, or no room.
pub fn paint_candles(bounds: Area, candles: &Vec<Candle>) -> (picture: Picture)
    ensures
        if paintable(bounds, candles@.len()) {
            &&& picture.grid@ == grid_lines(bounds)
            &&& picture.bars@ == shapes(bounds, plotted(candles@))
        } else {
            picture.grid@.len() == 0 && picture.bars@.len() == 0
        },
{
    let one: Double = Double { bits: ONE_BITS };
    let mut grid: Vec<Area> = Vec::new();
    let mut bars: Vec<BarShape> = Vec::new();
    if candles.len() < 2 || bounds.width.is_at_most(one) || bounds.height.is_at_most(one) {
        return Picture { grid, bars };
    }
    grid.push(draw_line(bounds, QUARTER));
    grid.push(draw_line(bounds, HALF));
    grid.push(draw_line(bounds, THREE_QUARTERS));
    let plot: Vec<PlottedBar> = plot_candles(candles);
    let mut i: usize = 0;
    while i < plot.len()
        invariant
            i <= plot.len(),
            bars@.len() == i,
            forall|j: int| 0 <= j < i ==> #[trigger] bars@[j] == shapes(bounds, plot@)[j],
        decreases plot.len() - i,
    {
        bars.push(shape_bar(bounds, plot.len(), i, plot[i]));
        i = i + 1;
    }
    assert(bars@ == shapes(bounds, plot@));
    Picture { grid, bars }
}

} // verus!
