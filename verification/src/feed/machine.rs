//! The feed as a machine: it names the work to be done outside, takes what came
//! of it, and tells what to send to the desk and what to keep.

use super::{
    apply_tick, bars_of, collect_listings, copy_bars, find_listing, find_series, listed_all,
    listed_before, listing_of, listing_place, listings_with_mids, lists_any, mark_listing,
    prepend_trades, prepended, put_bars, quote_with_mids, remarked, series_view, sort_markets,
    stored, Bars, Event, FeedCommand, FeedEvent, Series,
};
use crate::candles::{merge_candles, merged, upsert_candle, upserted, HISTORY_LIMIT};
use crate::double::Double;
use crate::lists::{either, first, sorted};
use crate::market::{
    cloned_listings, desk_from_live, if_positive, listings_view, Candle, Listing, LiveQuote,
    MarketListing, Quote, DEFAULT_SYMBOL,
};
use crate::rest::{retry_after, Refusal, RestError};
use crate::text::text_equal;
use crate::timeframe::Timeframe;
use crate::ws::{prices, Message, WsEvent};
use vstd::prelude::*;

verus! {

/// How long the feed waits for a command, in nanoseconds.
pub const COMMAND_WAIT: u64 = 80_000_000;

/// How long one look at the stream may take, in nanoseconds.
pub const POLL_WAIT: u64 = 1_000_000;

/// How many messages are taken from the stream between two waits.
pub const POLLS: u32 = 32;

/// The time from one request for the markets to the next, in nanoseconds.
pub const MARKET_REFRESH: u64 = 120_000_000_000;

/// The shortest time from one attempt to connect to the next.
pub const SHORTEST_BACKOFF: u64 = 1_000_000_000;

/// The longest time from one attempt to connect to the next.
pub const LONGEST_BACKOFF: u64 = 30_000_000_000;

pub const SECOND: u64 = 1_000_000_000;

/// What the feed waits for.
#[derive(Clone, Copy, Debug)]
pub enum Phase {
    /// The first attempt to connect.
    StartSocket,
    /// The cached bars of the first market.
    StartCached,
    /// The exchange's bars of the first market.
    StartFetched,
    /// The first markets.
    StartMarkets,
    /// A command, or the end of the wait for one.
    Waiting,
    /// The cached bars of a selected market.
    SelectCached,
    /// The exchange's bars of a selected market.
    SelectFetched,
    /// The stream's turn to a selected market.
    SelectSocket,
    /// A message of the stream; `left` more may be taken.
    Polling { left: u32, dirty: bool },
    /// An attempt to connect again.
    Connecting,
    /// The markets, asked for from time to time.
    Refreshing { dirty: bool },
    Stopped,
}

/// The work to be done outside.
#[derive(Debug)]
pub enum Request {
    Wait,
    LoadCandles { symbol: String, timeframe: Timeframe, limit: u32 },
    FetchCandles { symbol: String, timeframe: Timeframe, limit: u32 },
    FetchMarkets,
    Connect { symbol: String, timeframe: Timeframe },
    Select { symbol: String, timeframe: Timeframe },
    Poll,
    Stop,
}

/// What came of the work.
#[derive(Debug)]
pub enum Reply {
    Command(FeedCommand),
    Quiet,
    Closed,
    Cached(Vec<Candle>),
    Fetched(Result<Vec<Candle>, RestError>),
    Markets(Result<Vec<MarketListing>, RestError>),
    Connected(Result<(), String>),
    Selected(bool),
    Polled(Result<Option<WsEvent>, String>),
}

/// What a step of the feed gives: events for the desk, bars to keep in the
/// cache, and the next request.
#[derive(Debug)]
pub struct Step {
    pub events: Vec<FeedEvent>,
    pub save: Option<Series>,
    pub request: Request,
}

/// The feed. Times count nanoseconds on the clock of whoever runs it.
#[derive(Debug)]
pub struct Feed {
    pub phase: Phase,
    pub symbol: String,
    pub timeframe: Timeframe,
    pub series: Vec<Series>,
    pub listings: Vec<MarketListing>,
    pub markets_dirty: bool,
    pub live: LiveQuote,
    pub connected: bool,
    pub last_ws_attempt: u64,
    pub last_markets: u64,
    pub rest_cooldown_until: u64,
    pub backoff: u64,
}

/// What a request says.
#[verifier::ext_equal]
pub enum Demand {
    Wait,
    LoadCandles { symbol: Seq<char>, timeframe: Timeframe, limit: nat },
    FetchCandles { symbol: Seq<char>, timeframe: Timeframe, limit: nat },
    FetchMarkets,
    Connect { symbol: Seq<char>, timeframe: Timeframe },
    Select { symbol: Seq<char>, timeframe: Timeframe },
    Poll,
    Stop,
}

impl View for Request {
    type V = Demand;

    open spec fn view(&self) -> Demand {
        match self {
            Request::Wait => Demand::Wait,
            Request::LoadCandles { symbol, timeframe, limit } => Demand::LoadCandles {
                symbol: symbol@,
                timeframe: *timeframe,
                limit: *limit as nat,
            },
            Request::FetchCandles { symbol, timeframe, limit } => Demand::FetchCandles {
                symbol: symbol@,
                timeframe: *timeframe,
                limit: *limit as nat,
            },
            Request::FetchMarkets => Demand::FetchMarkets,
            Request::Connect { symbol, timeframe } => Demand::Connect {
                symbol: symbol@,
                timeframe: *timeframe,
            },
            Request::Select { symbol, timeframe } => Demand::Select {
                symbol: symbol@,
                timeframe: *timeframe,
            },
            Request::Poll => Demand::Poll,
            Request::Stop => Demand::Stop,
        }
    }
}

/// What came of the work, in words of the model.
#[verifier::ext_equal]
pub enum Answer {
    Select { symbol: Seq<char>, timeframe: Timeframe },
    Quiet,
    Closed,
    Cached(Seq<Candle>),
    Fetched(Result<Seq<Candle>, Refusal>),
    Markets(Result<Seq<Listing>, Refusal>),
    Connected(Result<(), Seq<char>>),
    Selected(bool),
    Polled(Result<Option<Message>, Seq<char>>),
}

impl View for Reply {
    type V = Answer;

    open spec fn view(&self) -> Answer {
        match self {
            Reply::Command(FeedCommand::Select { symbol, timeframe }) => Answer::Select {
                symbol: symbol@,
                timeframe: *timeframe,
            },
            Reply::Command(FeedCommand::Shutdown) => Answer::Closed,
            Reply::Quiet => Answer::Quiet,
            Reply::Closed => Answer::Closed,
            Reply::Cached(candles) => Answer::Cached(candles@),
            Reply::Fetched(Ok(candles)) => Answer::Fetched(Ok(candles@)),
            Reply::Fetched(Err(error)) => Answer::Fetched(Err(error@)),
            Reply::Markets(Ok(markets)) => Answer::Markets(Ok(listings_view(markets@))),
            Reply::Markets(Err(error)) => Answer::Markets(Err(error@)),
            Reply::Connected(Ok(_)) => Answer::Connected(Ok(())),
            Reply::Connected(Err(error)) => Answer::Connected(Err(error@)),
            Reply::Selected(done) => Answer::Selected(*done),
            Reply::Polled(Ok(Some(event))) => Answer::Polled(Ok(Some(event@))),
            Reply::Polled(Ok(None)) => Answer::Polled(Ok(None)),
            Reply::Polled(Err(error)) => Answer::Polled(Err(error@)),
        }
    }
}

/// The feed in words of the model.
#[verifier::ext_equal]
pub struct State {
    pub phase: Phase,
    pub symbol: Seq<char>,
    pub timeframe: Timeframe,
    pub series: Seq<Bars>,
    pub listings: Seq<Listing>,
    pub markets_dirty: bool,
    pub live: Quote,
    pub connected: bool,
    pub last_ws_attempt: u64,
    pub last_markets: u64,
    pub rest_cooldown_until: u64,
    pub backoff: u64,
}

impl View for Feed {
    type V = State;

    open spec fn view(&self) -> State {
        State {
            phase: self.phase,
            symbol: self.symbol@,
            timeframe: self.timeframe,
            series: series_view(self.series@),
            listings: listings_view(self.listings@),
            markets_dirty: self.markets_dirty,
            live: self.live@,
            connected: self.connected,
            last_ws_attempt: self.last_ws_attempt,
            last_markets: self.last_markets,
            rest_cooldown_until: self.rest_cooldown_until,
            backoff: self.backoff,
        }
    }
}

pub open spec fn events_view(events: Seq<FeedEvent>) -> Seq<Event> {
    Seq::new(events.len(), |i: int| events[i]@)
}

/// A step in words of the model, with the state that it leads to.
#[verifier::ext_equal]
pub struct Outcome {
    pub state: State,
    pub events: Seq<Event>,
    pub save: Option<Bars>,
}

pub open spec fn save_view(save: Option<Series>) -> Option<Bars> {
    match save {
        Some(series) => Some(series@),
        None => None,
    }
}

/// The time that has gone by since another.
pub open spec fn elapsed(now: u64, since: u64) -> int {
    if now > since {
        now - since
    } else {
        0
    }
}

/// The time of some seconds from now, or the last that can be counted.
pub open spec fn after_seconds(now: u64, seconds: u64) -> u64 {
    if now + seconds * SECOND <= u64::MAX {
        (now + seconds * SECOND) as u64
    } else {
        u64::MAX
    }
}

/// Twice the time, as far as the longest.
pub open spec fn doubled(backoff: u64) -> u64 {
    if 2 * backoff <= LONGEST_BACKOFF {
        (2 * backoff) as u64
    } else {
        LONGEST_BACKOFF
    }
}

/// The markets that are listed before the exchange lists its own.
pub open spec fn default_listings() -> Seq<Listing> {
    seq![
        Listing::placeholder("SOL"@),
        Listing::placeholder("BTC"@),
        Listing::placeholder("ETH"@),
    ]
}

impl State {
    /// The feed before its first request.
    pub open spec fn initial(now: u64) -> State {
        State {
            phase: Phase::StartSocket,
            symbol: DEFAULT_SYMBOL@,
            timeframe: Timeframe::OneMinute,
            series: seq![],
            listings: seq![],
            markets_dirty: false,
            live: Listing::placeholder(DEFAULT_SYMBOL@).quote(now),
            connected: false,
            last_ws_attempt: now,
            last_markets: now,
            rest_cooldown_until: now,
            backoff: SHORTEST_BACKOFF,
        }
    }

    /// The request that belongs to what the feed waits for.
    pub open spec fn demand(self) -> Demand {
        match self.phase {
            Phase::StartSocket | Phase::Connecting => Demand::Connect {
                symbol: self.symbol,
                timeframe: self.timeframe,
            },
            Phase::StartCached | Phase::SelectCached => Demand::LoadCandles {
                symbol: self.symbol,
                timeframe: self.timeframe,
                limit: HISTORY_LIMIT as nat,
            },
            Phase::StartFetched | Phase::SelectFetched => Demand::FetchCandles {
                symbol: self.symbol,
                timeframe: self.timeframe,
                limit: HISTORY_LIMIT as nat,
            },
            Phase::StartMarkets | Phase::Refreshing { .. } => Demand::FetchMarkets,
            Phase::Waiting => Demand::Wait,
            Phase::SelectSocket => Demand::Select {
                symbol: self.symbol,
                timeframe: self.timeframe,
            },
            Phase::Polling { .. } => Demand::Poll,
            Phase::Stopped => Demand::Stop,
        }
    }

    /// The bars of the selected market.
    pub open spec fn bars(self) -> Seq<Candle> {
        bars_of(self.series, self.symbol, self.timeframe)
    }

    /// The event that shows the selected market.
    pub open spec fn current(self) -> Event {
        Event::Desk(self.live.snapshot(self.timeframe, self.bars()))
    }

    /// The feed with other bars of the selected market.
    pub open spec fn with_bars(self, candles: Seq<Candle>) -> State {
        State {
            series: stored(
                self.series,
                Bars { symbol: self.symbol, timeframe: self.timeframe, candles },
            ),
            ..self
        }
    }

    /// The feed after a refused request: it pauses where it is asked to.
    pub open spec fn refused(self, error: Refusal, now: u64) -> State {
        match error.pause() {
            Some(seconds) => State { rest_cooldown_until: after_seconds(now, seconds), ..self },
            None => self,
        }
    }

    /// The feed after the exchange's bars, and what it keeps of them.
    pub open spec fn seeded(
        self,
        result: Result<Seq<Candle>, Refusal>,
        now: u64,
    ) -> (State, Option<Bars>) {
        match result {
            Ok(incoming) => if incoming.len() > 0 {
                let candles = merged(self.bars(), incoming);
                (
                    self.with_bars(candles),
                    Some(Bars { symbol: self.symbol, timeframe: self.timeframe, candles }),
                )
            } else {
                (self, None)
            },
            Err(error) => (self.refused(error, now), None),
        }
    }

    /// The feed after the exchange's markets, and what the desk is told.
    pub open spec fn with_markets(
        self,
        result: Result<Seq<Listing>, Refusal>,
        now: u64,
    ) -> (State, Seq<Event>) {
        match result {
            Ok(markets) => {
                let order = sorted(markets, listed_before());
                (State { listings: listed_all(order), ..self }, seq![Event::Markets(order)])
            },
            Err(error) => (
                self.refused(error, now),
                if self.listings.len() == 0 {
                    seq![Event::Error(error.text())]
                } else {
                    seq![]
                },
            ),
        }
    }

    /// The feed after a message of the stream; whether the quote and whether the
    /// listings have changed; and what it keeps.
    pub open spec fn heard(self, message: Message, now: u64) -> (State, bool, bool, Option<Bars>) {
        match message {
            Message::Orderbook(book) => {
                let mid = either(book.mid, self.live.mid);
                let live = Quote {
                    book,
                    mid,
                    mark: either(self.live.mark, mid),
                    fetched_at: now,
                    ..self.live
                };
                (State { live, ..self }, true, false, None)
            },
            Message::Market(tick) => {
                let live = Quote { fetched_at: now, ..self.live.ticked(tick) };
                match either(tick.mark, tick.mid) {
                    Some(mark) => (
                        State {
                            live,
                            listings: remarked(self.listings, self.symbol, mark),
                            ..self
                        },
                        true,
                        listing_of(self.listings, self.symbol) is Some,
                        None,
                    ),
                    None => (State { live, ..self }, true, false, None),
                }
            },
            Message::Trades(trades) => (
                State {
                    live: Quote {
                        trades: prepended(self.live.trades, trades),
                        fetched_at: now,
                        ..self.live
                    },
                    ..self
                },
                true,
                false,
                None,
            ),
            Message::Mids(mids) => (
                State {
                    live: quote_with_mids(self.live, self.symbol, mids),
                    listings: listings_with_mids(self.listings, mids),
                    ..self
                },
                true,
                lists_any(self.listings, mids),
                None,
            ),
            Message::Candle { timeframe, candle } => if timeframe == self.timeframe {
                (
                    self.with_bars(upserted(self.bars(), candle)),
                    true,
                    false,
                    Some(Bars { symbol: self.symbol, timeframe, candles: seq![candle] }),
                )
            } else {
                (self, false, false, None)
            },
        }
    }

    /// The end of a round: the desk is told what has changed.
    pub open spec fn wrapped_up(self, dirty: bool) -> (State, Seq<Event>) {
        let markets = if self.markets_dirty {
            seq![Event::Markets(sorted(self.listings, listed_before()))]
        } else {
            seq![]
        };
        let desk = if dirty {
            seq![self.current()]
        } else {
            seq![]
        };
        (State { markets_dirty: false, phase: Phase::Waiting, ..self }, markets + desk)
    }

    /// The round after the stream: the markets are asked for where it is time,
    /// else the round ends.
    pub open spec fn after_stream(self, dirty: bool, now: u64) -> (State, Seq<Event>) {
        if elapsed(now, self.last_markets) >= MARKET_REFRESH && now >= self.rest_cooldown_until {
            (State { last_markets: now, phase: Phase::Refreshing { dirty }, ..self }, seq![])
        } else {
            self.wrapped_up(dirty)
        }
    }

    /// The beginning after the first bars.
    pub open spec fn after_first_bars(self, now: u64) -> (State, Seq<Event>) {
        if now >= self.rest_cooldown_until {
            (State { phase: Phase::StartMarkets, ..self }, seq![])
        } else {
            self.started()
        }
    }

    /// The end of the beginning: the selected market takes over its listing and
    /// is shown.
    pub open spec fn started(self) -> (State, Seq<Event>) {
        let ready = match listing_of(self.listings, self.symbol) {
            Some(listing) => State {
                live: Quote { listing, open_interest: if_positive(listing.open_interest), ..self.live },
                phase: Phase::Waiting,
                ..self
            },
            None => State { phase: Phase::Waiting, ..self },
        };
        (ready, seq![ready.current()])
    }

    /// A selection after its bars: the stream turns to it, else it is shown.
    pub open spec fn after_selected_bars(self) -> (State, Seq<Event>) {
        if self.connected {
            (State { phase: Phase::SelectSocket, ..self }, seq![])
        } else {
            (State { phase: Phase::Waiting, ..self }, seq![self.current()])
        }
    }

    /// The feed after a selection.
    pub open spec fn selected(self, symbol: Seq<char>, timeframe: Timeframe, now: u64) -> (
        State,
        Seq<Event>,
    ) {
        let live = if symbol != self.symbol {
            match listing_of(self.listings, symbol) {
                Some(listing) => listing.quote(now),
                None => Listing::placeholder(symbol).quote(now),
            }
        } else {
            self.live
        };
        let turned = State { symbol, timeframe, live, ..self };
        if turned.bars().len() > 0 {
            turned.after_selected_bars()
        } else {
            (State { phase: Phase::SelectCached, ..turned }, seq![])
        }
    }

    /// The feed after a wait without a command.
    pub open spec fn rested(self, now: u64) -> (State, Seq<Event>) {
        if self.connected {
            (State { phase: Phase::Polling { left: POLLS, dirty: false }, ..self }, seq![])
        } else if elapsed(now, self.last_ws_attempt) >= self.backoff {
            (State { last_ws_attempt: now, phase: Phase::Connecting, ..self }, seq![])
        } else {
            self.after_stream(false, now)
        }
    }

    /// The feed after one look at the stream.
    pub open spec fn polled(
        self,
        left: u32,
        dirty: bool,
        result: Result<Option<Message>, Seq<char>>,
        now: u64,
    ) -> Outcome {
        match result {
            Ok(Some(message)) => {
                let (after, quote_dirty, listing_dirty, save) = self.heard(message, now);
                let next = State {
                    markets_dirty: self.markets_dirty || listing_dirty,
                    backoff: SHORTEST_BACKOFF,
                    ..after
                };
                let dirty = dirty || quote_dirty;
                if left > 1 {
                    Outcome {
                        state: State {
                            phase: Phase::Polling { left: (left - 1) as u32, dirty },
                            ..next
                        },
                        events: seq![],
                        save,
                    }
                } else {
                    let (state, events) = next.after_stream(dirty, now);
                    Outcome { state, events, save }
                }
            },
            Ok(None) => {
                let (state, events) = self.after_stream(dirty, now);
                Outcome { state, events, save: None }
            },
            Err(error) => {
                let (state, events) = (State { connected: false, ..self }).after_stream(
                    dirty,
                    now,
                );
                Outcome { state, events: seq![Event::Error(error)] + events, save: None }
            },
        }
    }

    /// The feed after an attempt to connect again.
    pub open spec fn reconnected(self, result: Result<(), Seq<char>>, now: u64) -> (
        State,
        Seq<Event>,
    ) {
        match result {
            Ok(_) => (State { connected: true, backoff: SHORTEST_BACKOFF, ..self }).after_stream(
                false,
                now,
            ),
            Err(error) => {
                let (state, events) = (State {
                    backoff: doubled(self.backoff),
                    ..self
                }).after_stream(false, now);
                (state, seq![Event::Error(error)] + events)
            },
        }
    }

    /// The feed after the markets that it asks for from time to time.
    pub open spec fn refreshed(
        self,
        dirty: bool,
        result: Result<Seq<Listing>, Refusal>,
        now: u64,
    ) -> (State, Seq<Event>) {
        let (after, told) = self.with_markets(result, now);
        let (state, events) = match listing_of(after.listings, after.symbol) {
            Some(listing) => (State {
                live: Quote { listing, ..after.live },
                ..after
            }).wrapped_up(true),
            None => after.wrapped_up(dirty),
        };
        (state, told + events)
    }

    /// The feed after what came of its request. What it did not ask for changes
    /// nothing, and the request stands.
    pub open spec fn stepped(self, answer: Answer, now: u64) -> Outcome {
        let stays = Outcome { state: self, events: seq![], save: None };
        match (self.phase, answer) {
            (Phase::StartSocket, Answer::Connected(result)) => Outcome {
                state: State {
                    connected: result is Ok,
                    last_ws_attempt: now,
                    last_markets: now,
                    rest_cooldown_until: now,
                    listings: default_listings(),
                    phase: Phase::StartCached,
                    ..self
                },
                events: seq![Event::Markets(default_listings())],
                save: None,
            },
            (Phase::StartCached, Answer::Cached(candles)) => if candles.len() > 0 {
                let (state, events) = self.with_bars(candles).after_first_bars(now);
                Outcome { state, events, save: None }
            } else if now < self.rest_cooldown_until {
                let (state, events) = self.after_first_bars(now);
                Outcome { state, events, save: None }
            } else {
                Outcome { state: State { phase: Phase::StartFetched, ..self }, ..stays }
            },
            (Phase::StartFetched, Answer::Fetched(result)) => {
                let (after, save) = self.seeded(result, now);
                let (state, events) = after.after_first_bars(now);
                Outcome { state, events, save }
            },
            (Phase::StartMarkets, Answer::Markets(result)) => {
                let (after, told) = self.with_markets(result, now);
                let (state, events) = after.started();
                Outcome { state, events: told + events, save: None }
            },
            (Phase::Waiting, Answer::Closed) => Outcome {
                state: State { phase: Phase::Stopped, ..self },
                ..stays
            },
            (Phase::Waiting, Answer::Select { symbol, timeframe }) => {
                let (state, events) = self.selected(symbol, timeframe, now);
                Outcome { state, events, save: None }
            },
            (Phase::Waiting, Answer::Quiet) => {
                let (state, events) = self.rested(now);
                Outcome { state, events, save: None }
            },
            (Phase::SelectCached, Answer::Cached(candles)) => if candles.len() > 0 {
                let (state, events) = self.with_bars(candles).after_selected_bars();
                Outcome { state, events, save: None }
            } else if now < self.rest_cooldown_until {
                let (state, events) = self.after_selected_bars();
                Outcome { state, events, save: None }
            } else {
                Outcome { state: State { phase: Phase::SelectFetched, ..self }, ..stays }
            },
            (Phase::SelectFetched, Answer::Fetched(result)) => {
                let (after, save) = self.seeded(result, now);
                let (state, events) = after.after_selected_bars();
                Outcome { state, events, save }
            },
            (Phase::SelectSocket, Answer::Selected(done)) => {
                let state = State { connected: done, phase: Phase::Waiting, ..self };
                Outcome { state, events: seq![state.current()], save: None }
            },
            (Phase::Polling { left, dirty }, Answer::Polled(result)) => self.polled(
                left,
                dirty,
                result,
                now,
            ),
            (Phase::Connecting, Answer::Connected(result)) => {
                let (state, events) = self.reconnected(result, now);
                Outcome { state, events, save: None }
            },
            (Phase::Refreshing { dirty }, Answer::Markets(result)) => {
                let (state, events) = self.refreshed(dirty, result, now);
                Outcome { state, events, save: None }
            },
            _ => stays,
        }
    }
}

fn push_event(events: &mut Vec<FeedEvent>, event: FeedEvent)
    ensures
        events_view(final(events)@) == events_view(old(events)@).push(event@),
{
    let ghost before = events_view(events@);
    events.push(event);
    assert(events_view(events@) == before.push(event@));
}

fn time_since(now: u64, since: u64) -> (result: u64)
    ensures
        result == elapsed(now, since),
{
    if now > since {
        now - since
    } else {
        0
    }
}

fn add_seconds(now: u64, seconds: u64) -> (result: u64)
    ensures
        result == after_seconds(now, seconds),
{
    let sum: u128 = now as u128 + seconds as u128 * 1_000_000_000;
    if sum <= u64::MAX as u128 {
        sum as u64
    } else {
        u64::MAX
    }
}

fn default_markets() -> (markets: Vec<MarketListing>)
    ensures
        listings_view(markets@) == default_listings(),
{
    let mut markets: Vec<MarketListing> = Vec::new();
    markets.push(MarketListing::placeholder("SOL"));
    markets.push(MarketListing::placeholder("BTC"));
    markets.push(MarketListing::placeholder("ETH"));
    markets
}

impl Feed {
    /// The feed before its first request, which is to connect.
    pub fn new(now: u64) -> (feed: Feed)
        ensures
            feed@ == State::initial(now),
    {
        Feed {
            phase: Phase::StartSocket,
            symbol: DEFAULT_SYMBOL.to_owned(),
            timeframe: Timeframe::OneMinute,
            series: Vec::new(),
            listings: Vec::new(),
            markets_dirty: false,
            live: LiveQuote::from_listing(MarketListing::placeholder(DEFAULT_SYMBOL), now),
            connected: false,
            last_ws_attempt: now,
            last_markets: now,
            rest_cooldown_until: now,
            backoff: SHORTEST_BACKOFF,
        }
    }

    /// The work that the feed waits for.
    pub fn request(&self) -> (request: Request)
        ensures
            request@ == self@.demand(),
    {
        let timeframe: Timeframe = self.timeframe;
        match self.phase {
            Phase::StartSocket | Phase::Connecting => Request::Connect {
                symbol: self.symbol.clone(),
                timeframe,
            },
            Phase::StartCached | Phase::SelectCached => Request::LoadCandles {
                symbol: self.symbol.clone(),
                timeframe,
                limit: HISTORY_LIMIT as u32,
            },
            Phase::StartFetched | Phase::SelectFetched => Request::FetchCandles {
                symbol: self.symbol.clone(),
                timeframe,
                limit: HISTORY_LIMIT as u32,
            },
            Phase::StartMarkets | Phase::Refreshing { .. } => Request::FetchMarkets,
            Phase::Waiting => Request::Wait,
            Phase::SelectSocket => Request::Select { symbol: self.symbol.clone(), timeframe },
            Phase::Polling { .. } => Request::Poll,
            Phase::Stopped => Request::Stop,
        }
    }

    fn emit_current(&self, events: &mut Vec<FeedEvent>)
        ensures
            events_view(final(events)@) == events_view(old(events)@).push(self@.current()),
    {
        let candles: Vec<Candle> = copy_bars(&self.series, self.symbol.as_str(), self.timeframe);
        let snapshot = desk_from_live(self.live.clone(), self.timeframe, candles);
        push_event(events, FeedEvent::Desk(Box::new(snapshot)));
    }

    fn keep_bars(&mut self, candles: Vec<Candle>)
        ensures
            final(self)@ == old(self)@.with_bars(candles@),
    {
        put_bars(&mut self.series, self.symbol.as_str(), self.timeframe, candles);
    }

    fn note_rest_error(&mut self, error: &RestError, now: u64)
        ensures
            final(self)@ == old(self)@.refused(error@, now),
    {
        if let Some(seconds) = retry_after(error) {
            self.rest_cooldown_until = add_seconds(now, seconds);
        }
    }

    /// Takes over the exchange's bars; gives what is to be kept of them.
    pub fn seed_history(&mut self, result: Result<Vec<Candle>, RestError>, now: u64) -> (save:
        Option<Series>)
        ensures
            (final(self)@, save_view(save)) == old(self)@.seeded(
                match result {
                    Ok(candles) => Ok(candles@),
                    Err(error) => Err(error@),
                },
                now,
            ),
    {
        match result {
            Ok(incoming) => if incoming.len() > 0 {
                let existing: Vec<Candle> = copy_bars(
                    &self.series,
                    self.symbol.as_str(),
                    self.timeframe,
                );
                let candles: Vec<Candle> = merge_candles(existing, incoming);
                let save: Series = Series {
                    symbol: self.symbol.clone(),
                    timeframe: self.timeframe,
                    candles: crate::lists::copied(&candles),
                };
                self.keep_bars(candles);
                Some(save)
            } else {
                None
            },
            Err(error) => {
                self.note_rest_error(&error, now);
                None
            },
        }
    }

    /// Takes over the exchange's markets and tells the desk.
    pub fn push_markets(
        &mut self,
        result: Result<Vec<MarketListing>, RestError>,
        now: u64,
        events: &mut Vec<FeedEvent>,
    )
        ensures
            ({
                let (state, told) = old(self)@.with_markets(
                    match result {
                        Ok(markets) => Ok(listings_view(markets@)),
                        Err(error) => Err(error@),
                    },
                    now,
                );
                &&& final(self)@ == state
                &&& events_view(final(events)@) == events_view(old(events)@) + told
            }),
    {
        match result {
            Ok(markets) => {
                let order: Vec<MarketListing> = sort_markets(&markets);
                self.listings = collect_listings(&order);
                push_event(events, FeedEvent::Markets(order));
            },
            Err(error) => {
                self.note_rest_error(&error, now);
                if self.listings.len() == 0 {
                    push_event(events, FeedEvent::Error(error.message()));
                }
            },
        }
    }

    fn hear_mids(&mut self, mids: &Vec<(String, Double)>) -> (changed: bool)
        ensures
            final(self)@ == (State {
                live: quote_with_mids(old(self)@.live, old(self)@.symbol, prices(mids@)),
                listings: listings_with_mids(old(self)@.listings, prices(mids@)),
                ..old(self)@
            }),
            changed == lists_any(old(self)@.listings, prices(mids@)),
    {
        let ghost start = self@;
        let ghost all = prices(mids@);
        let mut changed: bool = false;
        let mut i: usize = 0;
        assert(all.take(0).len() == 0);
        while i < mids.len()
            invariant
                i <= mids.len(),
                all == prices(mids@),
                self@ == (State {
                    live: quote_with_mids(start.live, start.symbol, all.take(i as int)),
                    listings: listings_with_mids(start.listings, all.take(i as int)),
                    ..start
                }),
                changed == exists|j: int|
                    0 <= j < i && listing_of(start.listings, (#[trigger] all[j]).0) is Some,
            decreases mids.len() - i,
        {
            let symbol: &str = mids[i].0.as_str();
            let price: Double = mids[i].1;
            proof {
                assert(all[i as int] == (symbol@, price));
                assert(all.take(i + 1).drop_last() == all.take(i as int));
                assert(all.take(i + 1).last() == all[i as int]);
                lemma_mids_keep_symbols(start.listings, all.take(i as int), symbol@);
            }
            if mark_listing(&mut self.listings, symbol, price) {
                changed = true;
            }
            if text_equal(symbol, self.symbol.as_str()) {
                self.live.mid = Some(price);
                self.live.mark = first(self.live.mark, Some(price));
            }
            i = i + 1;
        }
        assert(all.take(all.len() as int) == all);
        changed
    }

    /// Takes a message of the stream; says whether the quote and whether the
    /// listings have changed, and what is to be kept.
    pub fn apply_ws(&mut self, event: WsEvent, now: u64) -> (result: (bool, bool, Option<Series>))
        ensures
            (final(self)@, result.0, result.1, save_view(result.2)) == old(self)@.heard(
                event@,
                now,
            ),
    {
        match event {
            WsEvent::Orderbook(book) => {
                self.live.mid = first(book.mid, self.live.mid);
                self.live.mark = first(self.live.mark, self.live.mid);
                self.live.book = book;
                self.live.fetched_at = now;
                (true, false, None)
            },
            WsEvent::Market(tick) => {
                apply_tick(&mut self.live, &tick);
                self.live.fetched_at = now;
                match first(tick.mark, tick.mid) {
                    Some(mark) => {
                        let found: bool = mark_listing(
                            &mut self.listings,
                            self.symbol.as_str(),
                            mark,
                        );
                        (true, found, None)
                    },
                    None => (true, false, None),
                }
            },
            WsEvent::Trades(trades) => {
                prepend_trades(&mut self.live.trades, trades);
                self.live.fetched_at = now;
                (true, false, None)
            },
            WsEvent::Mids(mids) => {
                let changed: bool = self.hear_mids(&mids);
                (true, changed, None)
            },
            WsEvent::Candle { timeframe, candle } => {
                if timeframe != self.timeframe {
                    return (false, false, None);
                }
                let mut candles: Vec<Candle> = copy_bars(
                    &self.series,
                    self.symbol.as_str(),
                    timeframe,
                );
                upsert_candle(&mut candles, candle);
                self.keep_bars(candles);
                let mut one: Vec<Candle> = Vec::new();
                one.push(candle);
                let save: Series = Series { symbol: self.symbol.clone(), timeframe, candles: one };
                assert(save@.candles == seq![candle]);
                (true, false, Some(save))
            },
        }
    }

    fn wrap_up(&mut self, dirty: bool, events: &mut Vec<FeedEvent>)
        ensures
            final(self)@ == old(self)@.wrapped_up(dirty).0,
            events_view(final(events)@) == events_view(old(events)@) + old(self)@.wrapped_up(
                dirty,
            ).1,
    {
        let ghost start = self@;
        let ghost before = events_view(events@);
        if self.markets_dirty {
            let order: Vec<MarketListing> = sort_markets(&self.listings);
            push_event(events, FeedEvent::Markets(order));
        }
        if dirty {
            self.emit_current(events);
        }
        self.markets_dirty = false;
        self.phase = Phase::Waiting;
        assert(events_view(events@) == before + start.wrapped_up(dirty).1);
    }

    fn after_stream(&mut self, dirty: bool, now: u64, events: &mut Vec<FeedEvent>)
        ensures
            final(self)@ == old(self)@.after_stream(dirty, now).0,
            events_view(final(events)@) == events_view(old(events)@) + old(self)@.after_stream(
                dirty,
                now,
            ).1,
    {
        if time_since(now, self.last_markets) >= MARKET_REFRESH && now >= self.rest_cooldown_until {
            self.last_markets = now;
            self.phase = Phase::Refreshing { dirty };
        } else {
            self.wrap_up(dirty, events);
        }
    }

    fn finish_start(&mut self, events: &mut Vec<FeedEvent>)
        ensures
            final(self)@ == old(self)@.started().0,
            events_view(final(events)@) == events_view(old(events)@) + old(self)@.started().1,
    {
        let ghost start = self@;
        let ghost before = events_view(events@);
        let at: usize = find_listing(&self.listings, self.symbol.as_str());
        if at < self.listings.len() {
            let listing: MarketListing = self.listings[at].clone();
            self.live.open_interest =
            if listing.open_interest.is_positive() {
                Some(listing.open_interest)
            } else {
                None
            };
            self.live.listing = listing;
        }
        self.phase = Phase::Waiting;
        self.emit_current(events);
        assert(self@ == start.started().0);
        assert(events_view(events@) == before + start.started().1);
    }

    fn after_first_bars(&mut self, now: u64, events: &mut Vec<FeedEvent>)
        ensures
            final(self)@ == old(self)@.after_first_bars(now).0,
            events_view(final(events)@) == events_view(old(events)@)
                + old(self)@.after_first_bars(now).1,
    {
        if now >= self.rest_cooldown_until {
            self.phase = Phase::StartMarkets;
        } else {
            self.finish_start(events);
        }
    }

    fn after_selected_bars(&mut self, events: &mut Vec<FeedEvent>)
        ensures
            final(self)@ == old(self)@.after_selected_bars().0,
            events_view(final(events)@) == events_view(old(events)@)
                + old(self)@.after_selected_bars().1,
    {
        let ghost start = self@;
        let ghost before = events_view(events@);
        if self.connected {
            self.phase = Phase::SelectSocket;
        } else {
            self.phase = Phase::Waiting;
            self.emit_current(events);
        }
        assert(events_view(events@) == before + start.after_selected_bars().1);
    }

    fn listing_quote(&self, symbol: &str, now: u64) -> (quote: LiveQuote)
        ensures
            quote@ == match listing_of(self@.listings, symbol@) {
                Some(listing) => listing.quote(now),
                None => Listing::placeholder(symbol@).quote(now),
            },
    {
        let at: usize = find_listing(&self.listings, symbol);
        if at < self.listings.len() {
            LiveQuote::from_listing(self.listings[at].clone(), now)
        } else {
            LiveQuote::from_listing(MarketListing::placeholder(symbol), now)
        }
    }

    fn select(&mut self, symbol: String, timeframe: Timeframe, now: u64, events: &mut Vec<FeedEvent>)
        ensures
            final(self)@ == old(self)@.selected(symbol@, timeframe, now).0,
            events_view(final(events)@) == events_view(old(events)@) + old(self)@.selected(
                symbol@,
                timeframe,
                now,
            ).1,
    {
        if !text_equal(symbol.as_str(), self.symbol.as_str()) {
            self.live = self.listing_quote(symbol.as_str(), now);
        }
        self.symbol = symbol;
        self.timeframe = timeframe;
        let at: usize = find_series(&self.series, self.symbol.as_str(), timeframe);
        if at < self.series.len() && self.series[at].candles.len() > 0 {
            self.after_selected_bars(events);
        } else {
            self.phase = Phase::SelectCached;
        }
    }

    fn rest(&mut self, now: u64, events: &mut Vec<FeedEvent>)
        ensures
            final(self)@ == old(self)@.rested(now).0,
            events_view(final(events)@) == events_view(old(events)@) + old(self)@.rested(now).1,
    {
        if self.connected {
            self.phase = Phase::Polling { left: POLLS, dirty: false };
        } else if time_since(now, self.last_ws_attempt) >= self.backoff {
            self.last_ws_attempt = now;
            self.phase = Phase::Connecting;
        } else {
            self.after_stream(false, now, events);
        }
    }

    fn poll(
        &mut self,
        left: u32,
        dirty: bool,
        result: Result<Option<WsEvent>, String>,
        now: u64,
        events: &mut Vec<FeedEvent>,
    ) -> (save: Option<Series>)
        ensures
            ({
                let outcome = old(self)@.polled(
                    left,
                    dirty,
                    match result {
                        Ok(Some(event)) => Ok(Some(event@)),
                        Ok(None) => Ok(None),
                        Err(error) => Err(error@),
                    },
                    now,
                );
                &&& final(self)@ == outcome.state
                &&& events_view(final(events)@) == events_view(old(events)@) + outcome.events
                &&& save_view(save) == outcome.save
            }),
    {
        let ghost start = self@;
        match result {
            Ok(Some(event)) => {
                let (quote_dirty, listing_dirty, save) = self.apply_ws(event, now);
                self.markets_dirty = self.markets_dirty || listing_dirty;
                self.backoff = SHORTEST_BACKOFF;
                assert(self@.markets_dirty == (start.markets_dirty || listing_dirty));
                if left > 1 {
                    self.phase = Phase::Polling { left: left - 1, dirty: dirty || quote_dirty };
                } else {
                    self.after_stream(dirty || quote_dirty, now, events);
                }
                save
            },
            Ok(None) => {
                self.after_stream(dirty, now, events);
                None
            },
            Err(error) => {
                let ghost before = events_view(events@);
                self.connected = false;
                let ghost ended = self@;
                push_event(events, FeedEvent::Error(error));
                self.after_stream(dirty, now, events);
                assert(events_view(events@) == before + (seq![Event::Error(error@)]
                    + ended.after_stream(dirty, now).1));
                None
            },
        }
    }

    fn reconnect(&mut self, result: Result<(), String>, now: u64, events: &mut Vec<FeedEvent>)
        ensures
            ({
                let (state, told) = old(self)@.reconnected(
                    match result {
                        Ok(_) => Ok(()),
                        Err(error) => Err(error@),
                    },
                    now,
                );
                &&& final(self)@ == state
                &&& events_view(final(events)@) == events_view(old(events)@) + told
            }),
    {
        match result {
            Ok(_) => {
                self.connected = true;
                self.backoff = SHORTEST_BACKOFF;
                self.after_stream(false, now, events);
            },
            Err(error) => {
                let ghost before = events_view(events@);
                self.backoff =
                if self.backoff <= LONGEST_BACKOFF / 2 {
                    self.backoff * 2
                } else {
                    LONGEST_BACKOFF
                };
                let ghost ended = self@;
                push_event(events, FeedEvent::Error(error));
                self.after_stream(false, now, events);
                assert(events_view(events@) == before + (seq![Event::Error(error@)]
                    + ended.after_stream(false, now).1));
            },
        }
    }

    fn refresh(
        &mut self,
        dirty: bool,
        result: Result<Vec<MarketListing>, RestError>,
        now: u64,
        events: &mut Vec<FeedEvent>,
    )
        ensures
            ({
                let (state, told) = old(self)@.refreshed(
                    dirty,
                    match result {
                        Ok(markets) => Ok(listings_view(markets@)),
                        Err(error) => Err(error@),
                    },
                    now,
                );
                &&& final(self)@ == state
                &&& events_view(final(events)@) == events_view(old(events)@) + told
            }),
    {
        let ghost before = events_view(events@);
        self.push_markets(result, now, events);
        let ghost told = events_view(events@);
        let at: usize = find_listing(&self.listings, self.symbol.as_str());
        if at < self.listings.len() {
            self.live.listing = self.listings[at].clone();
            let ghost ended = self@;
            self.wrap_up(true, events);
            assert(events_view(events@) == told + ended.wrapped_up(true).1);
        } else {
            let ghost ended = self@;
            self.wrap_up(dirty, events);
            assert(events_view(events@) == told + ended.wrapped_up(dirty).1);
        }
    }

    /// Takes what came of the request and gives the next one.
    #[verifier::rlimit(40)]
    pub fn step(&mut self, reply: Reply, now: u64) -> (step: Step)
        ensures
            ({
                let outcome = old(self)@.stepped(reply@, now);
                &&& final(self)@ == outcome.state
                &&& events_view(step.events@) == outcome.events
                &&& save_view(step.save) == outcome.save
                &&& step.request@ == final(self)@.demand()
            }),
    {
        let mut events: Vec<FeedEvent> = Vec::new();
        let mut save: Option<Series> = None;
        assert(events_view(events@) == Seq::<Event>::empty());
        match (self.phase, reply) {
            (Phase::StartSocket, Reply::Connected(result)) => {
                self.connected =
                match result {
                    Ok(_) => true,
                    Err(_) => false,
                };
                self.last_ws_attempt = now;
                self.last_markets = now;
                self.rest_cooldown_until = now;
                let markets: Vec<MarketListing> = default_markets();
                self.listings = cloned_listings(&markets);
                push_event(&mut events, FeedEvent::Markets(markets));
                self.phase = Phase::StartCached;
            },
            (Phase::StartCached, Reply::Cached(candles)) => {
                if candles.len() > 0 {
                    self.keep_bars(candles);
                    self.after_first_bars(now, &mut events);
                } else if now < self.rest_cooldown_until {
                    self.after_first_bars(now, &mut events);
                } else {
                    self.phase = Phase::StartFetched;
                }
            },
            (Phase::StartFetched, Reply::Fetched(result)) => {
                save = self.seed_history(result, now);
                self.after_first_bars(now, &mut events);
            },
            (Phase::StartMarkets, Reply::Markets(result)) => {
                self.push_markets(result, now, &mut events);
                self.finish_start(&mut events);
            },
            (Phase::Waiting, Reply::Closed) => {
                self.phase = Phase::Stopped;
            },
            (Phase::Waiting, Reply::Command(FeedCommand::Shutdown)) => {
                self.phase = Phase::Stopped;
            },
            (Phase::Waiting, Reply::Command(FeedCommand::Select { symbol, timeframe })) => {
                self.select(symbol, timeframe, now, &mut events);
            },
            (Phase::Waiting, Reply::Quiet) => {
                self.rest(now, &mut events);
            },
            (Phase::SelectCached, Reply::Cached(candles)) => {
                if candles.len() > 0 {
                    self.keep_bars(candles);
                    self.after_selected_bars(&mut events);
                } else if now < self.rest_cooldown_until {
                    self.after_selected_bars(&mut events);
                } else {
                    self.phase = Phase::SelectFetched;
                }
            },
            (Phase::SelectFetched, Reply::Fetched(result)) => {
                save = self.seed_history(result, now);
                self.after_selected_bars(&mut events);
            },
            (Phase::SelectSocket, Reply::Selected(done)) => {
                self.connected = done;
                self.phase = Phase::Waiting;
                self.emit_current(&mut events);
            },
            (Phase::Polling { left, dirty }, Reply::Polled(result)) => {
                save = self.poll(left, dirty, result, now, &mut events);
            },
            (Phase::Connecting, Reply::Connected(result)) => {
                self.reconnect(result, now, &mut events);
            },
            (Phase::Refreshing { dirty }, Reply::Markets(result)) => {
                self.refresh(dirty, result, now, &mut events);
            },
            _ => {},
        }
        Step { events, save, request: self.request() }
    }
}

/// Mids change no listing's market.
proof fn lemma_mids_keep_symbols(
    listings: Seq<Listing>,
    mids: Seq<(Seq<char>, Double)>,
    symbol: Seq<char>,
)
    ensures
        listings_with_mids(listings, mids).len() == listings.len(),
        listing_place(listings_with_mids(listings, mids), symbol) == listing_place(listings, symbol),
        listing_of(listings_with_mids(listings, mids), symbol) is Some <==> listing_of(
            listings,
            symbol,
        ) is Some,
    decreases mids.len(),
{
    if mids.len() > 0 {
        lemma_mids_keep_symbols(listings, mids.drop_last(), symbol);
        let before = listings_with_mids(listings, mids.drop_last());
        lemma_remarked(before, mids.last().0, mids.last().1, symbol);
    }
}

/// A mark changes no listing's market.
pub proof fn lemma_remarked(
    listings: Seq<Listing>,
    marked: Seq<char>,
    mark: Double,
    symbol: Seq<char>,
)
    ensures
        remarked(listings, marked, mark).len() == listings.len(),
        listing_place(remarked(listings, marked, mark), symbol) == listing_place(listings, symbol),
    decreases listings.len(),
{
    let after = remarked(listings, marked, mark);
    if listings.len() > 0 {
        lemma_remarked(listings.drop_first(), marked, mark, symbol);
        lemma_listing_place(listings, marked);
        lemma_listing_place(listings.drop_first(), marked);
        if listings[0].symbol == marked {
            assert(after.drop_first() == listings.drop_first());
            lemma_same_symbols(after, listings, symbol);
        } else {
            assert(after.drop_first() == remarked(listings.drop_first(), marked, mark));
        }
    }
}

proof fn lemma_same_symbols(a: Seq<Listing>, b: Seq<Listing>, symbol: Seq<char>)
    requires
        a.len() == b.len(),
        forall|i: int| 0 <= i < a.len() ==> (#[trigger] a[i]).symbol == b[i].symbol,
    ensures
        listing_place(a, symbol) == listing_place(b, symbol),
    decreases a.len(),
{
    if a.len() > 0 {
        assert(a[0].symbol == b[0].symbol);
        assert forall|i: int| 0 <= i < a.drop_first().len() implies (
        #[trigger] a.drop_first()[i]).symbol == b.drop_first()[i].symbol by {
            assert(a[i + 1].symbol == b[i + 1].symbol);
        }
        lemma_same_symbols(a.drop_first(), b.drop_first(), symbol);
    }
}

pub proof fn lemma_listing_place(listings: Seq<Listing>, symbol: Seq<char>)
    ensures
        0 <= listing_place(listings, symbol) <= listings.len(),
        listing_place(listings, symbol) < listings.len() ==> listings[listing_place(
            listings,
            symbol,
        )].symbol == symbol,
        forall|i: int|
            0 <= i < listing_place(listings, symbol) ==> (#[trigger] listings[i]).symbol != symbol,
    decreases listings.len(),
{
    if listings.len() > 0 && listings[0].symbol != symbol {
        let rest = listings.drop_first();
        lemma_listing_place(rest, symbol);
        assert forall|i: int| 0 <= i < listing_place(listings, symbol) implies (
        #[trigger] listings[i]).symbol != symbol by {
            if i > 0 {
                assert(rest[i - 1] == listings[i]);
            }
        }
    }
}

} // verus!
