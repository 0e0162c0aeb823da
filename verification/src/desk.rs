//! The desk: what it holds of the feed, how it answers the hand, and what it
//! shows.

use crate::candles::{window, window_candles};
use crate::double::Double;
use crate::feed::{Event, FeedCommand, FeedEvent};
use crate::market::{
    listings_view, Candle, DeskSnapshot, Listing, MarketListing, Snapshot, DEFAULT_SYMBOL,
};
use crate::text::text_equal;
use crate::timeframe::Timeframe;
use std::sync::Arc;
use vstd::prelude::*;

pub mod chart;
pub mod effects;
pub mod laws;
pub mod panels;
pub mod picture;
pub mod plots;
pub mod shapes;
pub mod shown;

use chart::{
    hidden_limit, most_hidden, pan_bars, panned, zoom_bars, zoomed, BAR_WIDTH, FEWEST_BARS,
    USUAL_BARS,
};

verus! {

/// How many levels of each side of the book are shown.
pub const BOOK_DEPTH: usize = 12;

/// The bars that a key moves the chart by.
pub const KEY_BARS: i64 = 8;

/// The height of a line that the wheel is turned by, in pixels: twenty-four.
pub const LINE_HEIGHT: u64 = 0x4038_0000_0000_0000;

/// A scroll of less than a tenth of a pixel is none (0.1 in single precision).
pub const LEAST_SCROLL: u64 = 0x3fb9_9999_a000_0000;

/// A pinch of less than a hundredth is none (0.01 in single precision).
pub const LEAST_PINCH: u64 = 0x3f84_7ae1_4000_0000;

/// The desk. Lists are known here by their lengths.
#[derive(Debug)]
pub struct ProofDesk {
    pub selected_symbol: String,
    pub timeframe: Timeframe,
    pub markets: Arc<Vec<MarketListing>>,
    pub desk: Option<Arc<DeskSnapshot>>,
    pub last_error: Option<String>,
    pub stale: bool,
    pub candles: Arc<Vec<Candle>>,
    pub ask_rows: usize,
    pub bid_rows: usize,
    pub trade_rows: usize,
    pub market_rows: usize,
    pub ticket_side_long: bool,
    pub ticket_is_limit: bool,
    pub header_drag_armed: bool,
    pub chart_visible: usize,
    pub chart_offset: usize,
    pub chart_drag: Option<(Double, usize)>,
}

/// What a desk says.
#[verifier::ext_equal]
pub struct Screen {
    pub selected_symbol: Seq<char>,
    pub timeframe: Timeframe,
    pub markets: Seq<Listing>,
    pub desk: Option<Snapshot>,
    pub last_error: Option<Seq<char>>,
    pub stale: bool,
    pub candles: Seq<Candle>,
    pub ask_rows: nat,
    pub bid_rows: nat,
    pub trade_rows: nat,
    pub market_rows: nat,
    pub ticket_side_long: bool,
    pub ticket_is_limit: bool,
    pub header_drag_armed: bool,
    pub chart_visible: nat,
    pub chart_offset: nat,
    pub chart_drag: Option<(Double, nat)>,
}

impl View for ProofDesk {
    type V = Screen;

    open spec fn view(&self) -> Screen {
        Screen {
            selected_symbol: self.selected_symbol@,
            timeframe: self.timeframe,
            markets: listings_view((*self.markets)@),
            desk: match self.desk {
                Some(desk) => Some((*desk)@),
                None => None,
            },
            last_error: match self.last_error {
                Some(error) => Some(error@),
                None => None,
            },
            stale: self.stale,
            candles: (*self.candles)@,
            ask_rows: self.ask_rows as nat,
            bid_rows: self.bid_rows as nat,
            trade_rows: self.trade_rows as nat,
            market_rows: self.market_rows as nat,
            ticket_side_long: self.ticket_side_long,
            ticket_is_limit: self.ticket_is_limit,
            header_drag_armed: self.header_drag_armed,
            chart_visible: self.chart_visible as nat,
            chart_offset: self.chart_offset as nat,
            chart_drag: match self.chart_drag {
                Some((x, offset)) => Some((x, offset as nat)),
                None => None,
            },
        }
    }
}

/// What is to be done when the desk has changed.
#[derive(Debug)]
pub struct Change {
    /// The desk is to be drawn again.
    pub redraw: bool,
    /// The gesture is used up.
    pub consumed: bool,
    /// The feed is to be told.
    pub command: Option<FeedCommand>,
}

/// The command that a change brings, in words of the model: the market and the
/// width that are selected.
pub open spec fn selection_of(command: Option<FeedCommand>) -> Option<(Seq<char>, Timeframe)> {
    match command {
        Some(FeedCommand::Select { symbol, timeframe }) => Some((symbol@, timeframe)),
        _ => None,
    }
}

impl Change {
    /// The change says no more than that the desk is to be drawn, or not.
    pub open spec fn only_redraw(self, redraw: bool) -> bool {
        self.redraw == redraw && !self.consumed && self.command is None
    }

    /// The change says no more than that the desk is to be drawn, or not, after a
    /// gesture that is used up, or not.
    pub open spec fn after_gesture(self, redraw: bool, consumed: bool) -> bool {
        self.redraw == redraw && self.consumed == consumed && self.command is None
    }
}

/// How far the wheel is turned.
#[derive(Clone, Copy, Debug)]
pub enum Scroll {
    Pixels { x: Double, y: Double },
    Lines { x: Double, y: Double },
}

impl Scroll {
    /// The distance in pixels.
    pub open spec fn pixels(self) -> (Double, Double) {
        let height = Double { bits: LINE_HEIGHT };
        match self {
            Scroll::Pixels { x, y } => (x, y),
            Scroll::Lines { x, y } => (x.single_product(height), y.single_product(height)),
        }
    }

    fn to_pixels(self) -> (result: (Double, Double))
        ensures
            result == self.pixels(),
    {
        let height: Double = Double { bits: LINE_HEIGHT };
        match self {
            Scroll::Pixels { x, y } => (x, y),
            Scroll::Lines { x, y } => (x.single_times(height), y.single_times(height)),
        }
    }
}

/// The bars that come nearest to a distance in pixels.
pub open spec fn bars_in(distance: Double) -> int {
    distance.single_quotient(Double { bits: BAR_WIDTH }).nearest_whole()
}

fn count_bars(distance: Double) -> (bars: i64)
    ensures
        bars == bars_in(distance),
{
    distance.single_over(Double { bits: BAR_WIDTH }).round_to_whole()
}

/// The length of a side of the book as it is shown.
pub open spec fn shown_depth(length: nat) -> nat {
    if length > BOOK_DEPTH {
        BOOK_DEPTH as nat
    } else {
        length
    }
}

impl Screen {
    /// The desk at its beginning.
    pub open spec fn opened() -> Screen {
        Screen {
            selected_symbol: DEFAULT_SYMBOL@,
            timeframe: Timeframe::OneMinute,
            markets: seq![],
            desk: None,
            last_error: None,
            stale: false,
            candles: seq![],
            ask_rows: 0,
            bid_rows: 0,
            trade_rows: 0,
            market_rows: 0,
            ticket_side_long: true,
            ticket_is_limit: true,
            header_drag_armed: false,
            chart_visible: USUAL_BARS as nat,
            chart_offset: 0,
            chart_drag: None,
        }
    }

    /// The desk that is shown belongs to the selection.
    pub open spec fn accepts(self, snapshot: Snapshot) -> bool {
        snapshot.symbol == self.selected_symbol && snapshot.timeframe == self.timeframe
    }

    /// The desk after an event of the feed.
    pub open spec fn told(self, event: Event) -> Screen {
        match event {
            Event::Markets(markets) => Screen { markets, market_rows: markets.len(), ..self },
            Event::Desk(snapshot) => if self.accepts(snapshot) {
                Screen {
                    last_error: None,
                    stale: false,
                    candles: snapshot.candles,
                    ask_rows: shown_depth(snapshot.book.asks.len()),
                    bid_rows: shown_depth(snapshot.book.bids.len()),
                    trade_rows: snapshot.trades.len(),
                    desk: Some(snapshot),
                    ..self
                }
            } else {
                self
            },
            Event::Error(error) => Screen {
                last_error: Some(error),
                stale: self.stale || self.desk is Some,
                ..self
            },
        }
    }

    /// The desk after a market is selected.
    pub open spec fn turned_to(self, symbol: Seq<char>) -> Screen {
        if symbol == self.selected_symbol {
            self
        } else {
            Screen {
                selected_symbol: symbol,
                stale: false,
                last_error: None,
                chart_offset: 0,
                ..self
            }
        }
    }

    /// The desk after a width is selected.
    pub open spec fn widened_to(self, timeframe: Timeframe) -> Screen {
        if timeframe == self.timeframe {
            self
        } else {
            Screen { timeframe, chart_offset: 0, ..self }
        }
    }

    /// The desk after a zoom of its chart.
    pub open spec fn zoomed(self, zoom_in: bool) -> Screen {
        let visible = zoomed(self.candles.len(), self.chart_visible, zoom_in);
        let most = most_hidden(self.candles.len(), visible);
        Screen {
            chart_visible: visible,
            chart_offset: if self.chart_offset > most {
                most
            } else {
                self.chart_offset
            },
            ..self
        }
    }

    /// The desk after its chart is moved so many bars into the past.
    pub open spec fn panned(self, bars: int) -> Screen {
        Screen {
            chart_offset: panned(
                self.candles.len(),
                self.chart_visible,
                self.chart_offset as int,
                bars,
            ),
            ..self
        }
    }

    /// The desk with its chart as it was at first.
    pub open spec fn chart_reset(self) -> Screen {
        Screen { chart_visible: USUAL_BARS as nat, chart_offset: 0, chart_drag: None, ..self }
    }

    /// The desk after its chart, where it is held, is dragged to a place.
    pub open spec fn dragged(self, x: Double) -> Screen {
        match self.chart_drag {
            Some((origin, offset)) => Screen {
                chart_offset: panned(
                    self.candles.len(),
                    self.chart_visible,
                    offset as int,
                    -bars_in(x.single_difference(origin)),
                ),
                ..self
            },
            None => self,
        }
    }

    /// What a scroll does: nothing, a zoom, or a move.
    pub open spec fn scrolled(self, scroll: Scroll, zooming: bool) -> Option<Screen> {
        let (dx, dy) = scroll.pixels();
        if !zooming && dy.absolute().below(dx.absolute()) {
            if dx.absolute().below(Double { bits: LEAST_SCROLL }) {
                None
            } else {
                let bars = bars_in(dx);
                Some(
                    if bars != 0 {
                        self.panned(bars)
                    } else {
                        self
                    },
                )
            }
        } else if dy.absolute().below(Double { bits: LEAST_SCROLL }) {
            None
        } else {
            Some(self.zoomed(dy.positive()))
        }
    }

    /// What a pinch does.
    pub open spec fn pinched(self, delta: Double) -> Option<Screen> {
        if delta.absolute().below(Double { bits: LEAST_PINCH }) {
            None
        } else {
            Some(self.zoomed(delta.positive()))
        }
    }

    /// What a key without modifiers does.
    pub open spec fn after_key(self, key: Seq<char>) -> Screen {
        if key == "1"@ {
            self.turned_to("SOL"@)
        } else if key == "2"@ {
            self.turned_to("BTC"@)
        } else if key == "3"@ {
            self.turned_to("ETH"@)
        } else if key == "="@ || key == "+"@ {
            self.zoomed(true)
        } else if key == "-"@ {
            self.zoomed(false)
        } else if key == "left"@ {
            self.panned(KEY_BARS as int)
        } else if key == "right"@ {
            self.panned(-KEY_BARS)
        } else if key == "home"@ || key == "0"@ {
            self.chart_reset()
        } else {
            self
        }
    }

    /// The bars that the chart shows.
    pub open spec fn shown_bars(self) -> Seq<Candle> {
        let visible = if self.chart_visible > FEWEST_BARS {
            self.chart_visible
        } else {
            FEWEST_BARS as nat
        };
        let most = most_hidden(self.candles.len(), visible);
        window(
            self.candles,
            visible,
            if self.chart_offset > most {
                most
            } else {
                self.chart_offset
            },
        )
    }

    /// Something of the market is known.
    pub open spec fn alive(self) -> bool {
        match self.desk {
            Some(desk) => desk.mark is Some || desk.book.bids.len() > 0 || desk.candles.len() > 0,
            None => false,
        }
    }

    /// The state of the connection in a word, and whether it is a warning.
    pub open spec fn connection(self) -> (Seq<char>, bool) {
        if self.last_error is Some && self.desk is None {
            ("offline"@, true)
        } else if self.stale {
            ("stale"@, true)
        } else if self.alive() {
            ("live"@, false)
        } else {
            ("connecting"@, false)
        }
    }
}

fn limit_depth(length: usize) -> (depth: usize)
    ensures
        depth == shown_depth(length as nat),
{
    if length > BOOK_DEPTH {
        BOOK_DEPTH
    } else {
        length
    }
}

fn nothing() -> (change: Change)
    ensures
        change.only_redraw(false),
{
    Change { redraw: false, consumed: false, command: None }
}

fn redraw() -> (change: Change)
    ensures
        change.only_redraw(true),
{
    Change { redraw: true, consumed: false, command: None }
}

impl ProofDesk {
    pub fn new() -> (desk: ProofDesk)
        ensures
            desk@ == Screen::opened(),
    {
        ProofDesk {
            selected_symbol: DEFAULT_SYMBOL.to_owned(),
            timeframe: Timeframe::OneMinute,
            markets: Arc::new(Vec::new()),
            desk: None,
            last_error: None,
            stale: false,
            candles: Arc::new(Vec::new()),
            ask_rows: 0,
            bid_rows: 0,
            trade_rows: 0,
            market_rows: 0,
            ticket_side_long: true,
            ticket_is_limit: true,
            header_drag_armed: false,
            chart_visible: USUAL_BARS,
            chart_offset: 0,
            chart_drag: None,
        }
    }

    /// Takes an event of the feed; says whether the desk is to be drawn again.
    pub fn apply_event(&mut self, event: FeedEvent) -> (change: Change)
        ensures
            final(self)@ == old(self)@.told(event@),
            change.only_redraw(
                event@ matches Event::Desk(snapshot) ==> old(self)@.accepts(snapshot),
            ),
    {
        match event {
            FeedEvent::Markets(markets) => {
                self.market_rows = markets.len();
                self.markets = Arc::new(markets);
                redraw()
            },
            FeedEvent::Desk(snapshot) => {
                if !text_equal(snapshot.symbol.as_str(), self.selected_symbol.as_str())
                    || snapshot.timeframe != self.timeframe {
                    return nothing();
                }
                self.last_error = None;
                self.stale = false;
                self.candles = snapshot.candles.clone();
                self.ask_rows = limit_depth(snapshot.book.asks.len());
                self.bid_rows = limit_depth(snapshot.book.bids.len());
                self.trade_rows = snapshot.trades.len();
                self.desk = Some(Arc::new(*snapshot));
                redraw()
            },
            FeedEvent::Error(error) => {
                self.last_error = Some(error);
                if self.desk.is_some() {
                    self.stale = true;
                }
                redraw()
            },
        }
    }

    /// Selects a market; the feed is told where it is another one.
    pub fn select_symbol(&mut self, symbol: String) -> (change: Change)
        ensures
            final(self)@ == old(self)@.turned_to(symbol@),
            change.redraw == (symbol@ != old(self)@.selected_symbol),
            !change.consumed,
            change.redraw ==> selection_of(change.command) == Some(
                (symbol@, old(self)@.timeframe),
            ),
            !change.redraw ==> change.command is None,
    {
        if text_equal(symbol.as_str(), self.selected_symbol.as_str()) {
            return nothing();
        }
        self.selected_symbol = symbol.clone();
        self.stale = false;
        self.last_error = None;
        self.chart_offset = 0;
        Change {
            redraw: true,
            consumed: false,
            command: Some(FeedCommand::Select { symbol, timeframe: self.timeframe }),
        }
    }

    /// Selects a width; the feed is told where it is another one.
    pub fn set_timeframe(&mut self, timeframe: Timeframe) -> (change: Change)
        ensures
            final(self)@ == old(self)@.widened_to(timeframe),
            change.redraw == (timeframe != old(self)@.timeframe),
            !change.consumed,
            change.redraw ==> selection_of(change.command) == Some(
                (old(self)@.selected_symbol, timeframe),
            ),
            !change.redraw ==> change.command is None,
    {
        if timeframe == self.timeframe {
            return nothing();
        }
        self.timeframe = timeframe;
        self.chart_offset = 0;
        Change {
            redraw: true,
            consumed: false,
            command: Some(FeedCommand::Select { symbol: self.selected_symbol.clone(), timeframe }),
        }
    }

    pub fn zoom_chart(&mut self, zoom_in: bool) -> (change: Change)
        ensures
            final(self)@ == old(self)@.zoomed(zoom_in),
            change.only_redraw(final(self)@ != old(self)@),
    {
        let length: usize = self.candles.len();
        let visible: usize = zoom_bars(length, self.chart_visible, zoom_in);
        let most: usize = hidden_limit(length, visible);
        let offset: usize = if self.chart_offset > most { most } else { self.chart_offset };
        if visible == self.chart_visible && offset == self.chart_offset {
            return nothing();
        }
        self.chart_visible = visible;
        self.chart_offset = offset;
        assert(self@.chart_visible != old(self)@.chart_visible || self@.chart_offset != old(
            self,
        )@.chart_offset);
        redraw()
    }

    fn move_chart(&mut self, offset: usize, bars: i128) -> (change: Change)
        requires
            -0x1_0000_0000_0000_0000 <= bars <= 0x1_0000_0000_0000_0000,
        ensures
            final(self)@ == (Screen {
                chart_offset: panned(
                    old(self)@.candles.len(),
                    old(self)@.chart_visible,
                    offset as int,
                    bars as int,
                ),
                ..old(self)@
            }),
            change.only_redraw(final(self)@ != old(self)@),
    {
        let next: usize = pan_bars(self.candles.len(), self.chart_visible, offset, bars);
        if next == self.chart_offset {
            return nothing();
        }
        self.chart_offset = next;
        assert(self@.chart_offset != old(self)@.chart_offset);
        redraw()
    }

    /// Moves the chart so many bars into the past.
    pub fn pan_chart(&mut self, bars: i64) -> (change: Change)
        ensures
            final(self)@ == old(self)@.panned(bars as int),
            change.only_redraw(final(self)@ != old(self)@),
    {
        self.move_chart(self.chart_offset, bars as i128)
    }

    pub fn reset_chart(&mut self) -> (change: Change)
        ensures
            final(self)@ == old(self)@.chart_reset(),
            change.only_redraw(final(self)@ != old(self)@),
    {
        if self.chart_visible == USUAL_BARS && self.chart_offset == 0 && self.chart_drag.is_none() {
            return nothing();
        }
        self.chart_visible = USUAL_BARS;
        self.chart_offset = 0;
        self.chart_drag = None;
        assert(self@.chart_visible != old(self)@.chart_visible || self@.chart_offset != old(
            self,
        )@.chart_offset || self@.chart_drag != old(self)@.chart_drag);
        redraw()
    }

    /// Takes hold of the chart at a place.
    pub fn begin_chart_drag(&mut self, x: Double) -> (change: Change)
        ensures
            final(self)@ == (Screen {
                chart_drag: Some((x, old(self)@.chart_offset)),
                ..old(self)@
            }),
            change.after_gesture(true, true),
    {
        self.chart_drag = Some((x, self.chart_offset));
        Change { redraw: true, consumed: true, command: None }
    }

    /// Moves the chart, where it is held, to a place.
    pub fn drag_chart(&mut self, x: Double) -> (change: Change)
        ensures
            final(self)@ == old(self)@.dragged(x),
            change.after_gesture(final(self)@ != old(self)@, final(self)@ != old(self)@),
    {
        match self.chart_drag {
            Some((origin, offset)) => {
                let shift: i64 = count_bars(x.single_minus(origin));
                let moved: Change = self.move_chart(offset, -(shift as i128));
                Change { redraw: moved.redraw, consumed: moved.redraw, command: None }
            },
            None => nothing(),
        }
    }

    /// Lets go of the chart.
    pub fn end_chart_drag(&mut self) -> (change: Change)
        ensures
            final(self)@ == (Screen { chart_drag: None, ..old(self)@ }),
            change.only_redraw(old(self)@.chart_drag is Some),
    {
        let held: bool = self.chart_drag.is_some();
        self.chart_drag = None;
        if held {
            redraw()
        } else {
            nothing()
        }
    }

    /// Takes a scroll; `zooming` while control or alt is held.
    pub fn scroll_chart(&mut self, scroll: Scroll, zooming: bool) -> (change: Change)
        ensures
            match old(self)@.scrolled(scroll, zooming) {
                Some(after) => final(self)@ == after && change.after_gesture(
                    after != old(self)@,
                    true,
                ),
                None => final(self)@ == old(self)@ && change.after_gesture(false, false),
            },
    {
        let (dx, dy) = scroll.to_pixels();
        let least: Double = Double { bits: LEAST_SCROLL };
        let moved: Change = if !zooming && dy.abs().is_below(dx.abs()) {
            if dx.abs().is_below(least) {
                return nothing();
            }
            let bars: i64 = count_bars(dx);
            if bars != 0 {
                self.pan_chart(bars)
            } else {
                nothing()
            }
        } else {
            if dy.abs().is_below(least) {
                return nothing();
            }
            self.zoom_chart(dy.is_positive())
        };
        Change { redraw: moved.redraw, consumed: true, command: None }
    }

    /// Takes a pinch.
    pub fn pinch_chart(&mut self, delta: Double) -> (change: Change)
        ensures
            match old(self)@.pinched(delta) {
                Some(after) => final(self)@ == after && change.after_gesture(
                    after != old(self)@,
                    true,
                ),
                None => final(self)@ == old(self)@ && change.after_gesture(false, false),
            },
    {
        if delta.abs().is_below(Double { bits: LEAST_PINCH }) {
            return nothing();
        }
        let moved: Change = self.zoom_chart(delta.is_positive());
        Change { redraw: moved.redraw, consumed: true, command: None }
    }

    /// Takes a number of clicks on the chart: two set it back.
    pub fn click_chart(&mut self, clicks: usize) -> (change: Change)
        ensures
            clicks >= 2 ==> final(self)@ == old(self)@.chart_reset() && change.after_gesture(
                final(self)@ != old(self)@,
                true,
            ),
            clicks < 2 ==> final(self)@ == old(self)@ && change.after_gesture(false, false),
    {
        if clicks >= 2 {
            let moved: Change = self.reset_chart();
            Change { redraw: moved.redraw, consumed: true, command: None }
        } else {
            nothing()
        }
    }

    /// Takes a key; one with modifiers is none of the desk's.
    pub fn handle_key(&mut self, modified: bool, key: &str) -> (change: Change)
        ensures
            final(self)@ == if modified {
                old(self)@
            } else {
                old(self)@.after_key(key@)
            },
            change.redraw == (final(self)@ != old(self)@),
            !change.consumed,
            selection_of(change.command) == if final(self)@.selected_symbol != old(
                self,
            )@.selected_symbol {
                Some((final(self)@.selected_symbol, final(self)@.timeframe))
            } else {
                None
            },
            change.command is Some ==> change.command->0 is Select,
    {
        if modified {
            return nothing();
        }
        if text_equal(key, "1") {
            self.select_symbol("SOL".to_owned())
        } else if text_equal(key, "2") {
            self.select_symbol("BTC".to_owned())
        } else if text_equal(key, "3") {
            self.select_symbol("ETH".to_owned())
        } else if text_equal(key, "=") || text_equal(key, "+") {
            self.zoom_chart(true)
        } else if text_equal(key, "-") {
            self.zoom_chart(false)
        } else if text_equal(key, "left") {
            self.pan_chart(KEY_BARS)
        } else if text_equal(key, "right") {
            self.pan_chart(-KEY_BARS)
        } else if text_equal(key, "home") || text_equal(key, "0") {
            self.reset_chart()
        } else {
            nothing()
        }
    }

    /// The state of the connection in a word, and whether it is a warning.
    pub fn connection_label(&self) -> (label: (&'static str, bool))
        ensures
            (label.0@, label.1) == self@.connection(),
    {
        if self.last_error.is_some() && self.desk.is_none() {
            ("offline", true)
        } else if self.stale {
            ("stale", true)
        } else {
            let alive: bool = match &self.desk {
                Some(desk) => desk.mark.is_some() || desk.book.bids.len() > 0 || desk.candles.len()
                    > 0,
                None => false,
            };
            if alive {
                ("live", false)
            } else {
                ("connecting", false)
            }
        }
    }

    /// Chooses the side of the ticket.
    pub fn set_side(&mut self, long: bool) -> (change: Change)
        ensures
            final(self)@ == (Screen { ticket_side_long: long, ..old(self)@ }),
            change.only_redraw(true),
    {
        self.ticket_side_long = long;
        redraw()
    }

    /// Chooses a limit or a market order.
    pub fn set_limit(&mut self, limit: bool) -> (change: Change)
        ensures
            final(self)@ == (Screen { ticket_is_limit: limit, ..old(self)@ }),
            change.only_redraw(true),
    {
        self.ticket_is_limit = limit;
        redraw()
    }

    /// The header is taken hold of, or let go.
    pub fn arm_header(&mut self, armed: bool)
        ensures
            final(self)@ == (Screen { header_drag_armed: armed, ..old(self)@ }),
    {
        self.header_drag_armed = armed;
    }

    /// The pointer moves over the header; the window moves along where the header
    /// is held, which counts once.
    pub fn move_header(&mut self) -> (moves: bool)
        ensures
            final(self)@ == (Screen { header_drag_armed: false, ..old(self)@ }),
            moves == old(self)@.header_drag_armed,
    {
        let moves: bool = self.header_drag_armed;
        self.header_drag_armed = false;
        moves
    }

    /// The bars that the chart shows.
    pub fn chart_window(&self) -> (candles: Vec<Candle>)
        ensures
            candles@ == self@.shown_bars(),
    {
        let visible: usize = if self.chart_visible > FEWEST_BARS {
            self.chart_visible
        } else {
            FEWEST_BARS
        };
        let most: usize = hidden_limit(self.candles.len(), visible);
        let offset: usize = if self.chart_offset > most { most } else { self.chart_offset };
        window_candles(self.candles.as_slice(), visible, offset)
    }
}

} // verus!
