//! What the desk's panels show, in words.

use super::{shown_depth, ProofDesk, Screen, BOOK_DEPTH};
use crate::double::convert::ONE_BITS;
use crate::double::Double;
use crate::lists::{either, first};
use crate::market::{BookLevel, Deal, Listing, MarketListing, Trade};
use crate::text;
use crate::text::text_equal;
use crate::timeframe::Timeframe;
use vstd::prelude::*;

verus! {

/// The line at the top.
#[derive(Debug)]
pub struct TopBar {
    pub symbol: String,
    pub name: String,
    pub mark: String,
    pub change: String,
    pub rises: bool,
    pub open_interest: String,
    pub funding: String,
    pub volume: String,
    pub status: &'static str,
    pub warns: bool,
}

/// A line of the markets' list.
#[derive(Debug)]
pub struct MarketRow {
    pub id: String,
    pub symbol: String,
    pub active: bool,
    pub leverage: String,
}

/// A choice of the bars' width.
#[derive(Debug)]
pub struct TimeframeChip {
    pub id: String,
    pub label: &'static str,
    pub timeframe: Timeframe,
    pub active: bool,
}

/// A level of the book; `fraction` says how much of the row is filled, in single
/// precision.
#[derive(Debug)]
pub struct BookRow {
    pub price: String,
    pub size: String,
    pub fraction: Double,
}

/// The book: its sides, the best of each first, and the price between them.
#[derive(Debug)]
pub struct BookPanel {
    pub asks: Vec<BookRow>,
    pub bids: Vec<BookRow>,
    pub mid: String,
}

/// The order ticket.
#[derive(Debug)]
pub struct Ticket {
    pub limit: bool,
    pub long: bool,
    pub price: String,
}

/// A line of the trades.
#[derive(Debug)]
pub struct TradeRow {
    pub price: String,
    pub size: String,
    pub time: String,
    pub is_buy: bool,
}

/// The line at the bottom.
#[derive(Debug)]
pub struct BottomBar {
    pub detail: String,
    pub warns: bool,
}

pub open spec fn price_or_dash(value: Option<Double>) -> Seq<char> {
    match value {
        Some(value) => crate::format::price_text(value),
        None => crate::format::DASH@,
    }
}

pub open spec fn compact_or_dash(value: Option<Double>) -> Seq<char> {
    match value {
        Some(value) => crate::format::compact_text(value),
        None => crate::format::DASH@,
    }
}

pub open spec fn percent_text(value: Double) -> Seq<char> {
    if value.finite() {
        value.signed_fixed(2).push('%')
    } else {
        crate::format::DASH@
    }
}

pub open spec fn funding_text(value: Double) -> Seq<char> {
    if value.finite() {
        value.fixed(4).push('%')
    } else {
        crate::format::DASH@
    }
}

/// The largest size of some levels, at least one.
pub open spec fn largest_size(levels: Seq<BookLevel>) -> Double {
    largest_of(levels).larger(Double { bits: ONE_BITS })
}

pub open spec fn largest_of(levels: Seq<BookLevel>) -> Double
    decreases levels.len(),
{
    if levels.len() == 0 {
        Double { bits: 0 }
    } else {
        largest_of(levels.drop_last()).larger(levels.last().size)
    }
}

/// A part of the largest, kept between nothing and one.
pub open spec fn fraction_of(size: Double, largest: Double) -> Double {
    let part = size.quotient(largest);
    if part.below(Double { bits: 0 }) {
        Double { bits: 0 }
    } else if (Double { bits: ONE_BITS }).below(part) {
        Double { bits: ONE_BITS }
    } else {
        part
    }
}

/// A row shows a level of a side whose largest size is given.
pub open spec fn shows_level(row: BookRow, level: BookLevel, largest: Double) -> bool {
    &&& row.price@ == crate::format::price_text(level.price)
    &&& row.size@ == crate::format::size_text(level.size)
    &&& row.fraction == fraction_of(level.size, largest).single()
}

/// Rows show the first levels of a side, as many as are shown.
pub open spec fn shows_side(rows: Seq<BookRow>, levels: Seq<BookLevel>) -> bool {
    let shown = levels.take(shown_depth(levels.len()) as int);
    &&& rows.len() == shown.len()
    &&& forall|i: int|
        0 <= i < rows.len() ==> shows_level(#[trigger] rows[i], shown[i], largest_size(shown))
}

pub open spec fn shows_trade(row: TradeRow, trade: Deal) -> bool {
    &&& row.price@ == crate::format::price_text(trade.price)
    &&& row.size@ == crate::format::size_text(trade.size)
    &&& row.time@ == crate::format::clock_text(trade.timestamp)
    &&& row.is_buy == trade.is_buy
}

pub open spec fn leverage_text(leverage: Double) -> Seq<char> {
    if leverage.positive() {
        text::integer(leverage.whole()) + "x"@
    } else {
        crate::format::DASH@
    }
}

impl Screen {
    pub open spec fn title(self) -> Seq<char> {
        "Proof Terminal \u{2014} "@ + self.selected_symbol + "-PERP"@
    }

    pub open spec fn mark(self) -> Option<Double> {
        match self.desk {
            Some(desk) => desk.mark,
            None => None,
        }
    }

    pub open spec fn change(self) -> Option<Double> {
        match self.desk {
            Some(desk) => desk.change_24h_pct,
            None => None,
        }
    }

    pub open spec fn open_interest(self) -> Option<Double> {
        match self.desk {
            Some(desk) => desk.open_interest,
            None => None,
        }
    }

    pub open spec fn funding(self) -> Option<Double> {
        match self.desk {
            Some(desk) => desk.funding_pct,
            None => None,
        }
    }

    pub open spec fn volume(self) -> Option<Double> {
        match self.desk {
            Some(desk) => desk.volume_24h,
            None => None,
        }
    }

    /// The market that is shown, which may still be the one before the selection.
    pub open spec fn shown_symbol(self) -> Seq<char> {
        match self.desk {
            Some(desk) => desk.symbol,
            None => self.selected_symbol,
        }
    }

    pub open spec fn shown_name(self) -> Seq<char> {
        match self.desk {
            Some(desk) => desk.name,
            None => "Phoenix Perp"@,
        }
    }

    pub open spec fn asks(self) -> Seq<BookLevel> {
        match self.desk {
            Some(desk) => desk.book.asks,
            None => seq![],
        }
    }

    pub open spec fn bids(self) -> Seq<BookLevel> {
        match self.desk {
            Some(desk) => desk.book.bids,
            None => seq![],
        }
    }

    /// The price between the sides of the book.
    pub open spec fn book_mid(self) -> Option<Double> {
        match self.desk {
            Some(desk) => either(desk.mark, desk.book.mid),
            None => None,
        }
    }

    pub open spec fn trades(self) -> Seq<Deal> {
        match self.desk {
            Some(desk) => desk.trades,
            None => seq![],
        }
    }

    /// The last error, or the state of the market.
    pub open spec fn detail(self) -> Seq<char> {
        match self.last_error {
            Some(error) => error,
            None => "Phoenix "@ + match self.desk {
                Some(desk) => desk.status,
                None => "loading"@,
            } + " \u{b7} paper mode \u{b7} no signing"@,
        }
    }

    /// A bar shows the desk.
    pub open spec fn shown_in(self, bar: TopBar) -> bool {
        &&& bar.symbol@ == self.shown_symbol() + "-PERP"@
        &&& bar.name@ == self.shown_name()
        &&& bar.mark@ == price_or_dash(self.mark())
        &&& bar.change@ == match self.change() {
            Some(change) => percent_text(change),
            None => crate::format::DASH@,
        }
        &&& bar.rises == match self.change() {
            Some(change) => (Double { bits: 0 }).at_most(change),
            None => true,
        }
        &&& bar.open_interest@ == compact_or_dash(self.open_interest())
        &&& bar.funding@ == match self.funding() {
            Some(funding) => funding_text(funding),
            None => crate::format::DASH@,
        }
        &&& bar.volume@ == compact_or_dash(self.volume())
        &&& (bar.status@, bar.warns) == self.connection()
    }

    /// A row shows a market of the list.
    pub open spec fn shows_market(self, row: MarketRow, market: Listing) -> bool {
        &&& row.id@ == "market-"@ + market.symbol
        &&& row.symbol@ == market.symbol
        &&& row.active == (market.symbol == self.selected_symbol)
        &&& row.leverage@ == leverage_text(market.max_leverage)
    }
}

fn joined(head: &str, tail: &str) -> (result: String)
    ensures
        result@ == head@ + tail@,
{
    let mut out: Vec<char> = text::chars_of(head);
    text::push_text(&mut out, tail);
    text::text_of(out.as_slice())
}

fn show_price(value: Option<Double>) -> (result: String)
    ensures
        result@ == price_or_dash(value),
{
    match value {
        Some(value) => crate::format::price(value),
        None => crate::format::DASH.to_owned(),
    }
}

fn show_compact(value: Option<Double>) -> (result: String)
    ensures
        result@ == compact_or_dash(value),
{
    match value {
        Some(value) => crate::format::compact(value),
        None => crate::format::DASH.to_owned(),
    }
}

/// The first levels of a side, as they are shown.
pub fn book_rows(levels: &Vec<BookLevel>) -> (rows: Vec<BookRow>)
    ensures
        shows_side(rows@, levels@),
{
    let depth: usize = if levels.len() > BOOK_DEPTH { BOOK_DEPTH } else { levels.len() };
    let ghost shown = levels@.take(depth as int);
    let mut largest: Double = Double { bits: 0 };
    let mut i: usize = 0;
    while i < depth
        invariant
            i <= depth <= levels.len(),
            shown == levels@.take(depth as int),
            largest == largest_of(shown.take(i as int)),
        decreases depth - i,
    {
        assert(shown.take(i + 1).drop_last() == shown.take(i as int));
        largest = largest.max(levels[i].size);
        i = i + 1;
    }
    assert(shown.take(shown.len() as int) == shown);
    largest = largest.max(Double { bits: ONE_BITS });
    let mut rows: Vec<BookRow> = Vec::new();
    let mut j: usize = 0;
    while j < depth
        invariant
            j <= depth <= levels.len(),
            shown == levels@.take(depth as int),
            largest == largest_size(shown),
            rows@.len() == j,
            forall|k: int|
                0 <= k < j ==> shows_level(#[trigger] rows@[k], shown[k], largest_size(shown)),
        decreases depth - j,
    {
        let level: BookLevel = levels[j];
        let part: Double = level.size.over(largest);
        let zero: Double = Double { bits: 0 };
        let one: Double = Double { bits: ONE_BITS };
        let fraction: Double = if part.is_below(zero) {
            zero
        } else if one.is_below(part) {
            one
        } else {
            part
        };
        rows.push(
            BookRow {
                price: crate::format::price(level.price),
                size: crate::format::size(level.size),
                fraction: fraction.to_single(),
            },
        );
        j = j + 1;
    }
    rows
}

pub fn trade_row(trade: &Trade) -> (row: TradeRow)
    ensures
        shows_trade(row, trade@),
{
    TradeRow {
        price: crate::format::price(trade.price),
        size: crate::format::size(trade.size),
        time: crate::format::clock_label(trade.timestamp.as_str()),
        is_buy: trade.is_buy,
    }
}

impl ProofDesk {
    /// The window's title.
    pub fn title(&self) -> (title: String)
        ensures
            title@ == self@.title(),
    {
        let head: String = joined("Proof Terminal \u{2014} ", self.selected_symbol.as_str());
        joined(head.as_str(), "-PERP")
    }

    pub fn top_bar(&self) -> (bar: TopBar)
        ensures
            self@.shown_in(bar),
    {
        let (status, warns) = self.connection_label();
        match &self.desk {
            Some(desk) => TopBar {
                symbol: joined(desk.symbol.as_str(), "-PERP"),
                name: desk.name.clone(),
                mark: show_price(desk.mark),
                change: match desk.change_24h_pct {
                    Some(change) => crate::format::signed_percent(change),
                    None => crate::format::DASH.to_owned(),
                },
                rises: match desk.change_24h_pct {
                    Some(change) => (Double { bits: 0 }).is_at_most(change),
                    None => true,
                },
                open_interest: show_compact(desk.open_interest),
                funding: match desk.funding_pct {
                    Some(funding) => crate::format::unsigned_percent(funding),
                    None => crate::format::DASH.to_owned(),
                },
                volume: show_compact(desk.volume_24h),
                status,
                warns,
            },
            None => TopBar {
                symbol: joined(self.selected_symbol.as_str(), "-PERP"),
                name: "Phoenix Perp".to_owned(),
                mark: show_price(None),
                change: crate::format::DASH.to_owned(),
                rises: true,
                open_interest: show_compact(None),
                funding: crate::format::DASH.to_owned(),
                volume: show_compact(None),
                status,
                warns,
            },
        }
    }

    /// A line of the markets' list; none behind its end.
    pub fn market_row(&self, index: usize) -> (row: Option<MarketRow>)
        ensures
            match row {
                Some(row) => index < self@.markets.len() && self@.shows_market(
                    row,
                    self@.markets[index as int],
                ),
                None => index >= self@.markets.len(),
            },
    {
        if index >= self.markets.len() {
            return None;
        }
        let market: &MarketListing = &self.markets[index];
        assert(self@.markets[index as int] == market@);
        let leverage: String = if market.max_leverage.is_positive() {
            let mut out: Vec<char> = Vec::new();
            text::push_integer(&mut out, market.max_leverage.to_whole());
            text::push_text(&mut out, "x");
            text::text_of(out.as_slice())
        } else {
            crate::format::DASH.to_owned()
        };
        Some(
            MarketRow {
                id: joined("market-", market.symbol.as_str()),
                symbol: market.symbol.clone(),
                active: text_equal(market.symbol.as_str(), self.selected_symbol.as_str()),
                leverage,
            },
        )
    }

    /// The widths to choose from, the narrowest first.
    pub fn timeframe_chips(&self) -> (chips: Vec<TimeframeChip>)
        ensures
            chips@.len() == Timeframe::in_order().len(),
            forall|i: int|
                0 <= i < chips@.len() ==> {
                    let timeframe = Timeframe::in_order()[i];
                    &&& (#[trigger] chips@[i]).timeframe == timeframe
                    &&& chips@[i].id@ == "tf-"@ + timeframe.api_name()
                    &&& chips@[i].label@ == timeframe.api_name()
                    &&& chips@[i].active == (timeframe == self@.timeframe)
                },
    {
        let all: Vec<Timeframe> = Timeframe::all();
        let mut chips: Vec<TimeframeChip> = Vec::new();
        let mut i: usize = 0;
        while i < all.len()
            invariant
                i <= all.len(),
                all@ == Timeframe::in_order(),
                chips@.len() == i,
                forall|j: int|
                    0 <= j < chips@.len() ==> {
                        let timeframe = Timeframe::in_order()[j];
                        &&& (#[trigger] chips@[j]).timeframe == timeframe
                        &&& chips@[j].id@ == "tf-"@ + timeframe.api_name()
                        &&& chips@[j].label@ == timeframe.api_name()
                        &&& chips@[j].active == (timeframe == self@.timeframe)
                    },
            decreases all.len() - i,
        {
            let timeframe: Timeframe = all[i];
            chips.push(
                TimeframeChip {
                    id: joined("tf-", timeframe.as_api()),
                    label: timeframe.label(),
                    timeframe,
                    active: timeframe == self.timeframe,
                },
            );
            i = i + 1;
        }
        chips
    }

    pub fn book_panel(&self) -> (panel: BookPanel)
        ensures
            shows_side(panel.asks@, self@.asks()),
            shows_side(panel.bids@, self@.bids()),
            panel.mid@ == price_or_dash(self@.book_mid()),
    {
        match &self.desk {
            Some(desk) => BookPanel {
                asks: book_rows(&desk.book.asks),
                bids: book_rows(&desk.book.bids),
                mid: show_price(first(desk.mark, desk.book.mid)),
            },
            None => BookPanel { asks: Vec::new(), bids: Vec::new(), mid: show_price(None) },
        }
    }

    pub fn ticket(&self) -> (ticket: Ticket)
        ensures
            ticket.limit == self@.ticket_is_limit,
            ticket.long == self@.ticket_side_long,
            ticket.price@ == price_or_dash(self@.mark()),
    {
        Ticket {
            limit: self.ticket_is_limit,
            long: self.ticket_side_long,
            price: show_price(
                match &self.desk {
                    Some(desk) => desk.mark,
                    None => None,
                },
            ),
        }
    }

    pub fn trades_panel(&self) -> (rows: Vec<TradeRow>)
        ensures
            rows@.len() == self@.trades().len(),
            forall|i: int|
                0 <= i < rows@.len() ==> shows_trade(#[trigger] rows@[i], self@.trades()[i]),
    {
        let mut rows: Vec<TradeRow> = Vec::new();
        if let Some(desk) = &self.desk {
            let mut i: usize = 0;
            while i < desk.trades.len()
                invariant
                    i <= desk.trades.len(),
                    rows@.len() == i,
                    forall|j: int|
                        0 <= j < i ==> shows_trade(#[trigger] rows@[j], desk.trades@[j]@),
                decreases desk.trades.len() - i,
            {
                rows.push(trade_row(&desk.trades[i]));
                i = i + 1;
            }
        }
        rows
    }

    pub fn bottom_bar(&self) -> (bar: BottomBar)
        ensures
            bar.detail@ == self@.detail(),
            bar.warns == (self@.last_error is Some),
    {
        match &self.last_error {
            Some(error) => BottomBar { detail: error.clone(), warns: true },
            None => {
                let status: String = match &self.desk {
                    Some(desk) => desk.status.clone(),
                    None => "loading".to_owned(),
                };
                let mut out: Vec<char> = Vec::new();
                text::push_text(&mut out, "Phoenix ");
                text::push_text(&mut out, status.as_str());
                text::push_text(&mut out, " \u{b7} paper mode \u{b7} no signing");
                BottomBar { detail: text::text_of(out.as_slice()), warns: false }
            },
        }
    }
}

} // verus!
