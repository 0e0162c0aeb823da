//! Bars: the window that a chart shows, the series that live ticks keep up to
//! date, and the table that caches them on disk.

use crate::double::Double;
use crate::lists::{in_order, lemma_placed, lemma_placed_at, placed, ranks, sorted, sorting_orders};
use crate::market::Candle;
use vstd::prelude::*;

verus! {

/// How many bars a series keeps.
pub const HISTORY_LIMIT: usize = 720;

/// The table of the cache.
pub const SCHEMA: &'static str = "
CREATE TABLE IF NOT EXISTS candles (
    symbol TEXT NOT NULL,
    timeframe TEXT NOT NULL,
    time_ms INTEGER NOT NULL,
    open REAL NOT NULL,
    high REAL NOT NULL,
    low REAL NOT NULL,
    close REAL NOT NULL,
    volume REAL NOT NULL,
    PRIMARY KEY (symbol, timeframe, time_ms)
);
";

/// The newest bars of a symbol and timeframe, the newest first.
pub const SELECT_NEWEST: &'static str = "SELECT time_ms, open, high, low, close, volume
             FROM candles
             WHERE symbol = ?1 AND timeframe = ?2
             ORDER BY time_ms DESC
             LIMIT ?3";

/// A bar, in place of one with the same time.
pub const UPSERT_ROW: &'static str = "INSERT INTO candles (symbol, timeframe, time_ms, open, high, low, close, volume)
                 VALUES (?1, ?2, ?3, ?4, ?5, ?6, ?7, ?8)
                 ON CONFLICT(symbol, timeframe, time_ms) DO UPDATE SET
                    open = excluded.open,
                    high = excluded.high,
                    low = excluded.low,
                    close = excluded.close,
                    volume = excluded.volume";

/// How many bars a window holds.
pub open spec fn window_length(length: nat, visible: nat) -> nat {
    if visible < 1 {
        1
    } else if visible > length {
        length
    } else {
        visible
    }
}

/// The bars of a window: `visible` of them, the last `offset` left out, as far
/// as there are that many.
pub open spec fn window(candles: Seq<Candle>, visible: nat, offset: nat) -> Seq<Candle> {
    if candles.len() == 0 {
        seq![]
    } else {
        let shown = window_length(candles.len(), visible);
        let hidden = if offset > candles.len() - shown {
            candles.len() - shown
        } else {
            offset as int
        };
        let end = candles.len() - hidden;
        candles.subrange(end - shown, end)
    }
}

pub fn window_candles(candles: &[Candle], visible: usize, offset: usize) -> (shown: Vec<Candle>)
    ensures
        shown@ == window(candles@, visible as nat, offset as nat),
{
    if candles.len() == 0 {
        return Vec::new();
    }
    let count: usize = if visible < 1 {
        1
    } else if visible > candles.len() {
        candles.len()
    } else {
        visible
    };
    let most: usize = candles.len() - count;
    let hidden: usize = if offset > most { most } else { offset };
    let start: usize = candles.len() - count - hidden;
    let mut shown: Vec<Candle> = Vec::new();
    let mut i: usize = start;
    while i < start + count
        invariant
            start <= i <= start + count <= candles.len(),
            shown@ == candles@.subrange(start as int, i as int),
        decreases start + count - i,
    {
        shown.push(candles[i]);
        i = i + 1;
    }
    shown
}

/// A window of bars is as long as it can be, wherever it lies.
pub proof fn window_is_full(candles: Seq<Candle>, visible: nat, offset: nat)
    ensures
        window(candles, visible, offset).len() == if candles.len() == 0 {
            0
        } else {
            window_length(candles.len(), visible)
        },
{
}

/// With nothing left out a window shows the latest bars.
pub proof fn window_keeps_latest(candles: Seq<Candle>, visible: nat)
    requires
        1 <= visible <= candles.len(),
    ensures
        window(candles, visible, 0) == candles.skip(candles.len() - visible),
{
}

/// A window that would lie before the first bar shows the first ones.
pub proof fn window_stops_at_first(candles: Seq<Candle>, visible: nat, offset: nat)
    requires
        1 <= visible <= candles.len(),
        offset >= candles.len() - visible,
    ensures
        window(candles, visible, offset) == candles.take(visible as int),
{
}

/// The order of bars in time.
pub open spec fn earlier() -> spec_fn(Candle, Candle) -> bool {
    |a: Candle, b: Candle| a.time_ms < b.time_ms
}

/// The first bar of each run of bars with the same time.
pub open spec fn deduped(candles: Seq<Candle>) -> Seq<Candle>
    decreases candles.len(),
{
    if candles.len() <= 1 {
        candles
    } else if candles.last().time_ms == candles[candles.len() - 2].time_ms {
        deduped(candles.drop_last())
    } else {
        deduped(candles.drop_last()).push(candles.last())
    }
}

/// The last bars, as many as a series keeps.
pub open spec fn latest(candles: Seq<Candle>) -> Seq<Candle> {
    if candles.len() > HISTORY_LIMIT {
        candles.skip(candles.len() - HISTORY_LIMIT)
    } else {
        candles
    }
}

/// The place of the last bar of a time, or -1.
pub open spec fn last_at(candles: Seq<Candle>, time_ms: i64) -> int
    decreases candles.len(),
{
    if candles.len() == 0 {
        -1
    } else if candles.last().time_ms == time_ms {
        candles.len() - 1
    } else {
        last_at(candles.drop_last(), time_ms)
    }
}

/// A series with one bar more: in the place of the last one with its time, else
/// sorted in, the oldest dropped where there are too many.
pub open spec fn upserted(candles: Seq<Candle>, candle: Candle) -> Seq<Candle> {
    let at = last_at(candles, candle.time_ms);
    if at >= 0 {
        candles.update(at, candle)
    } else {
        latest(deduped(sorted(candles.push(candle), earlier())))
    }
}

/// A series with other bars put in one by one.
pub open spec fn merged(candles: Seq<Candle>, incoming: Seq<Candle>) -> Seq<Candle>
    decreases incoming.len(),
{
    if incoming.len() == 0 {
        candles
    } else {
        upserted(merged(candles, incoming.drop_last()), incoming.last())
    }
}

pub proof fn lemma_last_at(candles: Seq<Candle>, time_ms: i64)
    ensures
        -1 <= last_at(candles, time_ms) < candles.len(),
        last_at(candles, time_ms) >= 0 ==> candles[last_at(candles, time_ms)].time_ms == time_ms,
        forall|k: int|
            last_at(candles, time_ms) < k < candles.len() ==> (#[trigger] candles[k]).time_ms
                != time_ms,
    decreases candles.len(),
{
    if candles.len() > 0 && candles.last().time_ms != time_ms {
        let rest = candles.drop_last();
        lemma_last_at(rest, time_ms);
        assert forall|k: int| last_at(candles, time_ms) < k < candles.len() implies (
        #[trigger] candles[k]).time_ms != time_ms by {
            if k < rest.len() {
                assert(rest[k] == candles[k]);
            }
        }
    }
}

/// Sorts bars by time.
fn sort_candles(candles: &Vec<Candle>) -> (result: Vec<Candle>)
    ensures
        result@ == sorted(candles@, earlier()),
{
    let mut result: Vec<Candle> = Vec::new();
    let mut i: usize = 0;
    while i < candles.len()
        invariant
            i <= candles.len(),
            result.len() == i,
            result@ == sorted(candles@.take(i as int), earlier()),
        decreases candles.len() - i,
    {
        let candle: Candle = candles[i];
        let mut at: usize = result.len();
        while at > 0 && candle.time_ms < result[at - 1].time_ms
            invariant
                at <= result.len(),
                forall|k: int|
                    at <= k < result.len() ==> candle.time_ms < (#[trigger] result@[k]).time_ms,
            decreases at,
        {
            at = at - 1;
        }
        proof {
            let order = earlier();
            assert forall|k: int| at <= k < result@.len() implies order(
                candle,
                #[trigger] result@[k],
            ) by {}
            assert(at > 0 ==> !order(candle, result@[at - 1]));
            lemma_placed_at(result@, candle, order, at as int);
            assert(candles@.take(i + 1).drop_last() == candles@.take(i as int));
        }
        result.insert(at, candle);
        i = i + 1;
    }
    assert(candles@.take(candles@.len() as int) == candles@);
    result
}

fn dedup_candles(candles: &Vec<Candle>) -> (result: Vec<Candle>)
    ensures
        result@ == deduped(candles@),
{
    let mut result: Vec<Candle> = Vec::new();
    let mut i: usize = 0;
    while i < candles.len()
        invariant
            i <= candles.len(),
            result@ == deduped(candles@.take(i as int)),
        decreases candles.len() - i,
    {
        proof {
            let longer = candles@.take(i + 1);
            assert(longer.drop_last() == candles@.take(i as int));
            if i == 0 {
                assert(longer == candles@.take(0).push(candles@[0]));
            } else {
                assert(longer[longer.len() - 2] == candles@[i - 1]);
            }
        }
        if i == 0 || candles[i].time_ms != candles[i - 1].time_ms {
            result.push(candles[i]);
        }
        i = i + 1;
    }
    assert(candles@.take(candles@.len() as int) == candles@);
    result
}

fn keep_latest(candles: &Vec<Candle>) -> (result: Vec<Candle>)
    ensures
        result@ == latest(candles@),
{
    let start: usize = if candles.len() > HISTORY_LIMIT { candles.len() - HISTORY_LIMIT } else { 0 };
    let mut result: Vec<Candle> = Vec::new();
    let mut i: usize = start;
    while i < candles.len()
        invariant
            start <= i <= candles.len(),
            result@ == candles@.subrange(start as int, i as int),
        decreases candles.len() - i,
    {
        result.push(candles[i]);
        i = i + 1;
    }
    assert(result@ == latest(candles@));
    result
}

pub fn upsert_candle(candles: &mut Vec<Candle>, candle: Candle)
    ensures
        final(candles)@ == upserted(old(candles)@, candle),
{
    proof {
        lemma_last_at(candles@, candle.time_ms);
    }
    let mut i: usize = candles.len();
    while i > 0
        invariant
            i <= candles.len(),
            candles@ == old(candles)@,
            forall|k: int| i <= k < candles.len() ==> (#[trigger] candles@[k]).time_ms
                != candle.time_ms,
        decreases i,
    {
        i = i - 1;
        if candles[i].time_ms == candle.time_ms {
            proof {
                lemma_last_at(candles@, candle.time_ms);
            }
            candles.set(i, candle);
            return ;
        }
    }
    proof {
        lemma_last_at(candles@, candle.time_ms);
    }
    candles.push(candle);
    let ordered: Vec<Candle> = sort_candles(candles);
    let single: Vec<Candle> = dedup_candles(&ordered);
    *candles = keep_latest(&single);
}

pub fn merge_candles(existing: Vec<Candle>, incoming: Vec<Candle>) -> (result: Vec<Candle>)
    ensures
        result@ == merged(existing@, incoming@),
{
    let mut result: Vec<Candle> = existing;
    let mut i: usize = 0;
    while i < incoming.len()
        invariant
            i <= incoming.len(),
            result@ == merged(existing@, incoming@.take(i as int)),
        decreases incoming.len() - i,
    {
        assert(incoming@.take(i + 1).drop_last() == incoming@.take(i as int));
        upsert_candle(&mut result, incoming[i]);
        i = i + 1;
    }
    assert(incoming@.take(incoming@.len() as int) == incoming@);
    result
}

/// A bar as the cache keeps it: without the volume in quote units and the
/// number of trades, which have no column.
pub fn cached_candle(
    time_ms: i64,
    open: Double,
    high: Double,
    low: Double,
    close: Double,
    volume: Double,
) -> (candle: Candle)
    ensures
        candle == (Candle {
            time_ms,
            open,
            high,
            low,
            close,
            volume,
            volume_quote: None,
            trade_count: None,
        }),
{
    Candle { time_ms, open, high, low, close, volume, volume_quote: None, trade_count: None }
}

/// Rows that come newest first, as a series.
pub fn oldest_first(rows: Vec<Candle>) -> (series: Vec<Candle>)
    ensures
        series@ == rows@.reverse(),
{
    let mut series: Vec<Candle> = Vec::new();
    let mut i: usize = rows.len();
    while i > 0
        invariant
            i <= rows.len(),
            series.len() == rows.len() - i,
            forall|k: int| 0 <= k < series.len() ==> #[trigger] series@[k] == rows@[rows.len() - 1
                - k],
        decreases i,
    {
        i = i - 1;
        series.push(rows[i]);
    }
    assert(series@ == rows@.reverse());
    series
}

/// A series as it should be: in time's order, one bar for each time, and no
/// more than are kept.
pub open spec fn is_series(candles: Seq<Candle>) -> bool {
    &&& candles.len() <= HISTORY_LIMIT
    &&& forall|i: int, j: int|
        0 <= i < j < candles.len() ==> (#[trigger] candles[i]).time_ms < (
        #[trigger] candles[j]).time_ms
}

/// What is in strict order is sorted, and no two of its bars are of one time.
proof fn lemma_strict(candles: Seq<Candle>)
    requires
        forall|i: int, j: int|
            0 <= i < j < candles.len() ==> (#[trigger] candles[i]).time_ms < (
            #[trigger] candles[j]).time_ms,
    ensures
        sorted(candles, earlier()) == candles,
        deduped(candles) == candles,
    decreases candles.len(),
{
    if candles.len() > 0 {
        let rest = candles.drop_last();
        assert forall|i: int, j: int| 0 <= i < j < rest.len() implies (
        #[trigger] rest[i]).time_ms < (#[trigger] rest[j]).time_ms by {
            assert(rest[i] == candles[i] && rest[j] == candles[j]);
        }
        lemma_strict(rest);
        if rest.len() > 0 {
            assert(candles[rest.len() - 1].time_ms < candles[rest.len() as int].time_ms);
        }
        assert(candles == rest.push(candles.last()));
    }
}

/// A bar of a new time is placed in a series, and the oldest bar leaves where
/// there would be one too many.
pub proof fn new_time_is_placed(candles: Seq<Candle>, candle: Candle)
    requires
        is_series(candles),
        forall|k: int|
            0 <= k < candles.len() ==> (#[trigger] candles[k]).time_ms != candle.time_ms,
    ensures
        upserted(candles, candle) == latest(placed(candles, candle, earlier())),
        forall|i: int, j: int|
            0 <= i < j < placed(candles, candle, earlier()).len() ==> (#[trigger] placed(
                candles,
                candle,
                earlier(),
            )[i]).time_ms < (#[trigger] placed(candles, candle, earlier())[j]).time_ms,
        placed(candles, candle, earlier()).to_multiset() == candles.to_multiset().insert(candle),
        placed(candles, candle, earlier()).len() == candles.len() + 1,
{
    let order = earlier();
    let out = placed(candles, candle, order);
    lemma_last_at(candles, candle.time_ms);
    lemma_strict(candles);
    assert(candles.push(candle).drop_last() == candles);
    assert(sorted(candles.push(candle), order) == out);
    assert(in_order(candles, order));
    assert(ranks(order));
    lemma_placed(candles, candle, order);
    assert forall|i: int, j: int| 0 <= i < j < out.len() implies (#[trigger] out[i]).time_ms < (
    #[trigger] out[j]).time_ms by {
        assert(!order(out[j], out[i]));
        lemma_distinct_times(candles, candle, out, i, j);
    }
    lemma_strict(out);
}

/// No two bars are of one time where the new one's time is new.
proof fn lemma_distinct_times(candles: Seq<Candle>, candle: Candle, out: Seq<Candle>, i: int, j: int)
    requires
        is_series(candles),
        forall|k: int|
            0 <= k < candles.len() ==> (#[trigger] candles[k]).time_ms != candle.time_ms,
        out == placed(candles, candle, earlier()),
        0 <= i < j < out.len(),
    ensures
        out[i].time_ms != out[j].time_ms,
    decreases candles.len(),
{
    let order = earlier();
    if candles.len() == 0 || !order(candle, candles.last()) {
        assert(out == candles.push(candle));
        if j < candles.len() {
            assert(candles[i].time_ms < candles[j].time_ms);
        } else {
            assert(candles[i].time_ms != candle.time_ms);
        }
    } else {
        let rest = candles.drop_last();
        let inner = placed(rest, candle, order);
        assert forall|x: int, y: int| 0 <= x < y < rest.len() implies (
        #[trigger] rest[x]).time_ms < (#[trigger] rest[y]).time_ms by {
            assert(rest[x] == candles[x] && rest[y] == candles[y]);
        }
        assert forall|k: int| 0 <= k < rest.len() implies (#[trigger] rest[k]).time_ms
            != candle.time_ms by {
            assert(rest[k] == candles[k]);
        }
        lemma_placed_length(rest, candle);
        if j < inner.len() {
            lemma_distinct_times(rest, candle, inner, i, j);
        } else {
            // The last bar stays last; everything ahead of it is earlier.
            lemma_placed_below(rest, candle, candles.last().time_ms, i);
        }
    }
}

proof fn lemma_placed_length(candles: Seq<Candle>, candle: Candle)
    ensures
        placed(candles, candle, earlier()).len() == candles.len() + 1,
    decreases candles.len(),
{
    if candles.len() > 0 && earlier()(candle, candles.last()) {
        lemma_placed_length(candles.drop_last(), candle);
    }
}

proof fn lemma_placed_below(candles: Seq<Candle>, candle: Candle, bound: i64, i: int)
    requires
        candle.time_ms < bound,
        forall|k: int| 0 <= k < candles.len() ==> (#[trigger] candles[k]).time_ms < bound,
        0 <= i < placed(candles, candle, earlier()).len(),
    ensures
        placed(candles, candle, earlier())[i].time_ms < bound,
    decreases candles.len(),
{
    if candles.len() > 0 && earlier()(candle, candles.last()) {
        let rest = candles.drop_last();
        assert forall|k: int| 0 <= k < rest.len() implies (#[trigger] rest[k]).time_ms < bound by {
            assert(rest[k] == candles[k]);
        }
        if i < placed(rest, candle, earlier()).len() {
            lemma_placed_below(rest, candle, bound, i);
        } else {
            assert(candles[candles.len() - 1].time_ms < bound);
        }
    }
}

/// Putting a bar into a series gives a series.
pub proof fn upsert_keeps_series(candles: Seq<Candle>, candle: Candle)
    requires
        is_series(candles),
    ensures
        is_series(upserted(candles, candle)),
{
    lemma_last_at(candles, candle.time_ms);
    if last_at(candles, candle.time_ms) < 0 {
        new_time_is_placed(candles, candle);
    }
}

/// Merging bars into a series, in whatever order they come, gives a series.
pub proof fn merge_keeps_series(candles: Seq<Candle>, incoming: Seq<Candle>)
    requires
        is_series(candles),
    ensures
        is_series(merged(candles, incoming)),
    decreases incoming.len(),
{
    if incoming.len() > 0 {
        merge_keeps_series(candles, incoming.drop_last());
        upsert_keeps_series(merged(candles, incoming.drop_last()), incoming.last());
    }
}

/// A bar of a time that the series has rewrites that bar alone.
pub proof fn upsert_rewrites_forming_bar(candles: Seq<Candle>, candle: Candle, at: int)
    requires
        is_series(candles),
        0 <= at < candles.len(),
        candles[at].time_ms == candle.time_ms,
    ensures
        upserted(candles, candle) == candles.update(at, candle),
{
    lemma_last_at(candles, candle.time_ms);
    let found = last_at(candles, candle.time_ms);
    assert(found >= at);
    if found > at {
        assert(candles[at].time_ms < candles[found].time_ms);
    }
}

/// Of two bars of one time that are put in one after the other, only the second
/// leaves a trace.
pub proof fn second_upsert_wins(candles: Seq<Candle>, one: Candle, two: Candle)
    requires
        is_series(candles),
        one.time_ms == two.time_ms,
        upserted(candles, one).contains(one),
    ensures
        upserted(upserted(candles, one), two) == upserted(candles, two),
{
    lemma_last_at(candles, one.time_ms);
    let found = last_at(candles, one.time_ms);
    let after = upserted(candles, one);
    upsert_keeps_series(candles, one);
    let k = choose|k: int| 0 <= k < after.len() && after[k] == one;
    upsert_rewrites_forming_bar(after, two, k);
    if found >= 0 {
        if k != found {
            assert(after[found].time_ms == one.time_ms);
            assert(after[k].time_ms == one.time_ms);
        }
        assert(after.update(k, two) == candles.update(found, two));
    } else {
        new_time_is_placed(candles, one);
        new_time_is_placed(candles, two);
        lemma_placed_same_time(candles, one, two);
        let a = placed(candles, one, earlier());
        let b = placed(candles, two, earlier());
        let drop = if a.len() > HISTORY_LIMIT {
            a.len() - HISTORY_LIMIT
        } else {
            0
        };
        let at = choose|at: int| 0 <= at < a.len() && a[at] == one && b == a.update(at, two);
        assert(a[k + drop] == one);
        if at != k + drop {
            assert(a[at].time_ms == a[k + drop].time_ms);
        }
        assert(after.update(k, two) == latest(b));
    }
}

proof fn lemma_placed_same_time(candles: Seq<Candle>, one: Candle, two: Candle)
    requires
        one.time_ms == two.time_ms,
    ensures
        exists|at: int|
            0 <= at < placed(candles, one, earlier()).len() && #[trigger] placed(
                candles,
                one,
                earlier(),
            )[at] == one && placed(candles, two, earlier()) == placed(
                candles,
                one,
                earlier(),
            ).update(at, two),
    decreases candles.len(),
{
    let order = earlier();
    let a = placed(candles, one, order);
    let b = placed(candles, two, order);
    if candles.len() == 0 || !order(one, candles.last()) {
        assert(a[candles.len() as int] == one);
        assert(b == a.update(candles.len() as int, two));
    } else {
        let rest = candles.drop_last();
        lemma_placed_same_time(rest, one, two);
        let x = placed(rest, one, order);
        let at = choose|at: int|
            0 <= at < x.len() && #[trigger] x[at] == one && placed(rest, two, order) == x.update(
                at,
                two,
            );
        assert(a[at] == one);
        assert(b == a.update(at, two));
    }
}

/// A bar that is put in is there afterwards, unless the series is full of later
/// ones.
pub proof fn upserted_bar_is_there(candles: Seq<Candle>, candle: Candle)
    requires
        is_series(candles),
        candles.len() == HISTORY_LIMIT ==> candles[0].time_ms <= candle.time_ms,
    ensures
        upserted(candles, candle).contains(candle),
{
    lemma_last_at(candles, candle.time_ms);
    let found = last_at(candles, candle.time_ms);
    if found >= 0 {
        assert(upserted(candles, candle)[found] == candle);
    } else {
        new_time_is_placed(candles, candle);
        let out = placed(candles, candle, earlier());
        broadcast use vstd::seq_lib::group_to_multiset_ensures;

        assert(out.to_multiset().count(candle) > 0);
        assert(out.contains(candle));
        let at = choose|at: int| 0 <= at < out.len() && out[at] == candle;
        if candles.len() == HISTORY_LIMIT {
            // The first bar of the series stands ahead of the new one.
            assert(candles.contains(candles[0]));
            assert(out.to_multiset().count(candles[0]) > 0);
            assert(out.contains(candles[0]));
            let first = choose|k: int| 0 <= k < out.len() && out[k] == candles[0];
            if at < first {
                assert(out[at].time_ms < out[first].time_ms);
            }
            assert(at > 0);
            assert(latest(out)[at - 1] == candle);
        } else {
            assert(latest(out)[at] == candle);
        }
    }
}

/// Every other bar of a series stays, but for the oldest, which leaves a full
/// series when a bar of a new time comes.
pub proof fn upsert_leaves_the_others(candles: Seq<Candle>, candle: Candle, k: int)
    requires
        is_series(candles),
        0 <= k < candles.len(),
        candles[k].time_ms != candle.time_ms,
        k > 0 || candles.len() < HISTORY_LIMIT || last_at(candles, candle.time_ms) >= 0,
    ensures
        upserted(candles, candle).contains(candles[k]),
{
    lemma_last_at(candles, candle.time_ms);
    if last_at(candles, candle.time_ms) >= 0 {
        assert(upserted(candles, candle)[k] == candles[k]);
    } else {
        new_time_is_placed(candles, candle);
        broadcast use vstd::seq_lib::group_to_multiset_ensures;

        let out = placed(candles, candle, earlier());
        assert(candles.contains(candles[k]) && candles.contains(candles[0]));
        assert(out.to_multiset().count(candles[k]) > 0);
        assert(out.to_multiset().count(candles[0]) > 0);
        assert(out.contains(candles[k]) && out.contains(candles[0]));
        let at = choose|at: int| 0 <= at < out.len() && out[at] == candles[k];
        let first = choose|at: int| 0 <= at < out.len() && out[at] == candles[0];
        if candles.len() == HISTORY_LIMIT {
            assert(candles[0].time_ms < candles[k].time_ms);
            if at < first {
                assert(out[at].time_ms < out[first].time_ms);
            }
            assert(latest(out)[at - 1] == candles[k]);
        } else {
            assert(latest(out)[at] == candles[k]);
        }
    }
}

proof fn lemma_deduped_some(candles: Seq<Candle>)
    requires
        candles.len() > 0,
    ensures
        deduped(candles).len() > 0,
    decreases candles.len(),
{
    if candles.len() > 1 {
        lemma_deduped_some(candles.drop_last());
    }
}

/// What a bar is put into is not empty afterwards.
pub proof fn upsert_leaves_some(candles: Seq<Candle>, candle: Candle)
    ensures
        upserted(candles, candle).len() > 0,
{
    lemma_last_at(candles, candle.time_ms);
    sorting_orders(candles.push(candle), earlier());
    lemma_deduped_some(sorted(candles.push(candle), earlier()));
}

/// What bars are merged into is not empty afterwards.
pub proof fn merge_leaves_some(candles: Seq<Candle>, incoming: Seq<Candle>)
    requires
        incoming.len() > 0,
    ensures
        merged(candles, incoming).len() > 0,
{
    upsert_leaves_some(merged(candles, incoming.drop_last()), incoming.last());
}

/// A window shows the bars that end before those left out, in their order.
pub proof fn window_shows_its_bars(candles: Seq<Candle>, visible: nat, offset: nat, i: int)
    requires
        visible >= 1,
        offset + visible <= candles.len(),
        0 <= i < visible,
    ensures
        window(candles, visible, offset).len() == visible,
        window(candles, visible, offset)[i] == candles[candles.len() - offset - visible + i],
{
}

/// A series is of 720 bars at most, each later than the one before it.
pub proof fn series_are_of_720_bars(candles: Seq<Candle>, i: int)
    ensures
        is_series(candles) ==> candles.len() <= 720 && (0 < i < candles.len() ==> candles[i
            - 1].time_ms < candles[i].time_ms),
        candles.len() <= 720 ==> latest(candles) == candles,
        candles.len() > 720 ==> latest(candles).len() == 720 && (0 <= i < 720
            ==> latest(candles)[i] == candles[candles.len() - 720 + i]),
{
}

/// A bar that is newer than a series comes to its end; the oldest leaves where there
/// were 720. One that lies between two bars comes between them.
pub proof fn newer_bars_come_last(candles: Seq<Candle>, candle: Candle, at: int)
    requires
        is_series(candles),
        0 <= at <= candles.len(),
        at > 0 ==> candles[at - 1].time_ms < candle.time_ms,
        at < candles.len() ==> candle.time_ms < candles[at].time_ms,
    ensures
        candles.len() < 720 ==> upserted(candles, candle) == candles.insert(at, candle),
        candles.len() == 720 ==> upserted(candles, candle) == candles.insert(
            at,
            candle,
        ).drop_first(),
{
    assert forall|k: int| 0 <= k < candles.len() implies (#[trigger] candles[k]).time_ms
        != candle.time_ms by {
        if k < at - 1 {
            assert(candles[k].time_ms < candles[at - 1].time_ms);
        }
        if k > at {
            assert(candles[at].time_ms < candles[k].time_ms);
        }
    }
    new_time_is_placed(candles, candle);
    let order = earlier();
    assert forall|k: int| at <= k < candles.len() implies order(candle, #[trigger] candles[k]) by {
        if k > at {
            assert(candles[at].time_ms < candles[k].time_ms);
        }
    }
    lemma_placed_at(candles, candle, order, at);
    let out = candles.insert(at, candle);
    if candles.len() == 720 {
        assert(out.skip(1) == out.drop_first());
    }
}

/// Merging one bar puts it in, and bars that are merged in two parts are put in one
/// after the other.
pub proof fn merging_puts_in_one_by_one(
    candles: Seq<Candle>,
    one: Seq<Candle>,
    two: Seq<Candle>,
    candle: Candle,
)
    ensures
        merged(candles, seq![]) == candles,
        merged(candles, seq![candle]) == upserted(candles, candle),
        merged(candles, one + two) == merged(merged(candles, one), two),
    decreases two.len(),
{
    assert(seq![candle].drop_last() == Seq::<Candle>::empty());
    assert(merged(candles, Seq::<Candle>::empty()) == candles);
    if two.len() == 0 {
        assert(one + two == one);
    } else {
        assert((one + two).drop_last() == one + two.drop_last());
        assert((one + two).last() == two.last());
        merging_puts_in_one_by_one(candles, one, two.drop_last(), candle);
    }
}

} // verus!
