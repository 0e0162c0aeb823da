//! What holds of every paper account.

use super::{
    adds, gain, place_of, positions_after, realized, usable, Account, Order, Position, FILL_LIMIT,
};
use crate::double::arithmetic::UNIT_EXPONENT;
use crate::double::convert::{MINUS_ONE_BITS, ONE_BITS};
use crate::double::{rounding, Double, BINADE};
use vstd::arithmetic::power2::*;
use vstd::prelude::*;

verus! {

impl Account {
    /// Resting orders have usable sizes and prices, and ids from one on that grow and
    /// are all given out; no market has two positions; the fills keep to their limit.
    pub open spec fn valid(self) -> bool {
        &&& forall|i: int|
            0 <= i < self.orders.len() ==> usable((#[trigger] self.orders[i]).size) && usable(
                self.orders[i].price,
            ) && 1 <= self.orders[i].id < self.next_id
        &&& self.next_id >= 1
        &&& ids_grow(self.orders)
        &&& no_market_twice(self.positions)
        &&& self.fills.len() <= FILL_LIMIT
    }
}

pub open spec fn ids_grow(orders: Seq<Order>) -> bool {
    forall|i: int, j: int|
        0 <= i < j < orders.len() ==> (#[trigger] orders[i]).id < (#[trigger] orders[j]).id
}

pub open spec fn no_market_twice(positions: Seq<Position>) -> bool {
    forall|i: int, j: int|
        0 <= i < j < positions.len() ==> (#[trigger] positions[i]).symbol != (
        #[trigger] positions[j]).symbol
}

/// The position in a market.
pub open spec fn held_in(positions: Seq<Position>, symbol: Seq<char>) -> Option<Position> {
    if place_of(positions, symbol) < positions.len() {
        Some(positions[place_of(positions, symbol)])
    } else {
        None
    }
}

pub proof fn lemma_place_of(positions: Seq<Position>, symbol: Seq<char>)
    ensures
        0 <= place_of(positions, symbol) <= positions.len(),
        place_of(positions, symbol) < positions.len() ==> positions[place_of(
            positions,
            symbol,
        )].symbol == symbol,
        forall|i: int|
            0 <= i < place_of(positions, symbol) ==> (#[trigger] positions[i]).symbol != symbol,
    decreases positions.len(),
{
    if positions.len() > 0 && positions[0].symbol != symbol {
        let rest = positions.drop_first();
        lemma_place_of(rest, symbol);
        assert forall|i: int| 0 <= i < place_of(positions, symbol) implies (
        #[trigger] positions[i]).symbol != symbol by {
            if i > 0 {
                assert(rest[i - 1] == positions[i]);
            }
        }
    }
}

/// The place is where the market is met first.
proof fn lemma_place_is(positions: Seq<Position>, symbol: Seq<char>, at: int)
    requires
        0 <= at <= positions.len(),
        at < positions.len() ==> positions[at].symbol == symbol,
        forall|i: int| 0 <= i < at ==> (#[trigger] positions[i]).symbol != symbol,
    ensures
        place_of(positions, symbol) == at,
{
    lemma_place_of(positions, symbol);
}

/// What a filter keeps is from the orders, and in their order.
pub proof fn lemma_filter(orders: Seq<Order>, keep: spec_fn(Order) -> bool)
    requires
        ids_grow(orders),
    ensures
        ids_grow(orders.filter(keep)),
        forall|i: int|
            0 <= i < orders.filter(keep).len() ==> orders.contains(
                #[trigger] orders.filter(keep)[i],
            ) && keep(orders.filter(keep)[i]),
    decreases orders.len(),
{
    reveal(Seq::filter);
    if orders.len() > 0 {
        let front = orders.drop_last();
        let last = orders.last();
        assert(ids_grow(front)) by {
            assert forall|i: int, j: int| 0 <= i < j < front.len() implies (
            #[trigger] front[i]).id < (#[trigger] front[j]).id by {
                assert(front[i] == orders[i] && front[j] == orders[j]);
            }
        }
        lemma_filter(front, keep);
        let inner = front.filter(keep);
        assert forall|i: int| 0 <= i < inner.len() implies orders.contains(#[trigger] inner[i])
            && inner[i].id < last.id && keep(inner[i]) by {
            assert(front.contains(inner[i]));
            let k = choose|k: int| 0 <= k < front.len() && front[k] == inner[i];
            assert(orders[k] == inner[i]);
            assert(orders[k].id < orders[orders.len() - 1].id);
        }
        let out = orders.filter(keep);
        assert forall|i: int| 0 <= i < out.len() implies orders.contains(#[trigger] out[i])
            && keep(out[i]) by {
            if i < inner.len() {
                assert(out[i] == inner[i]);
            } else {
                assert(out[i] == last && orders[orders.len() - 1] == last);
            }
        }
        assert forall|i: int, j: int| 0 <= i < j < out.len() implies (#[trigger] out[i]).id < (
        #[trigger] out[j]).id by {
            assert(out[i] == inner[i]);
            if j < inner.len() {
                assert(out[j] == inner[j]);
            } else {
                assert(out[j] == last);
            }
        }
    }
}

/// A filter keeps all where all are to be kept.
proof fn lemma_filter_all(orders: Seq<Order>, keep: spec_fn(Order) -> bool)
    requires
        forall|i: int| 0 <= i < orders.len() ==> keep(#[trigger] orders[i]),
    ensures
        orders.filter(keep) == orders,
    decreases orders.len(),
{
    reveal(Seq::filter);
    if orders.len() > 0 {
        let front = orders.drop_last();
        assert forall|i: int| 0 <= i < front.len() implies keep(#[trigger] front[i]) by {
            assert(front[i] == orders[i]);
        }
        lemma_filter_all(front, keep);
        assert(keep(orders[orders.len() - 1]));
        assert(front.push(orders.last()) == orders);
    }
}

/// A filter keeps none where none is to be kept.
proof fn lemma_filter_none(orders: Seq<Order>, keep: spec_fn(Order) -> bool)
    requires
        forall|i: int| 0 <= i < orders.len() ==> !keep(#[trigger] orders[i]),
    ensures
        orders.filter(keep).len() == 0,
    decreases orders.len(),
{
    reveal(Seq::filter);
    if orders.len() > 0 {
        let front = orders.drop_last();
        assert forall|i: int| 0 <= i < front.len() implies !keep(#[trigger] front[i]) by {
            assert(front[i] == orders[i]);
        }
        lemma_filter_none(front, keep);
        assert(!keep(orders[orders.len() - 1]));
    }
}

/// A new account is valid.
pub proof fn opened_is_valid()
    ensures
        Account::opened().valid(),
{
}

/// A fill leaves every other market's position as it was.
pub proof fn fill_leaves_other_markets(
    positions: Seq<Position>,
    symbol: Seq<char>,
    signed: Double,
    price: Double,
    leverage: Double,
    other: Seq<char>,
)
    requires
        other != symbol,
    ensures
        held_in(positions_after(positions, symbol, signed, price, leverage), other) == held_in(
            positions,
            other,
        ),
{
    let after = positions_after(positions, symbol, signed, price, leverage);
    let at = place_of(positions, symbol);
    let place = place_of(positions, other);
    lemma_place_of(positions, symbol);
    lemma_place_of(positions, other);
    if at >= positions.len() {
        assert forall|i: int| 0 <= i < positions.len() implies after[i] == positions[i] by {}
        if place < positions.len() {
            lemma_place_is(after, other, place);
        } else {
            lemma_place_is(after, other, after.len() as int);
        }
    } else if after.len() == positions.len() {
        assert(after[at].symbol == symbol);
        assert forall|i: int| 0 <= i < positions.len() && i != at implies after[i]
            == positions[i] by {}
        assert forall|i: int| 0 <= i < place implies (#[trigger] after[i]).symbol != other by {
            assert(positions[i].symbol != other);
        }
        lemma_place_is(after, other, place);
    } else {
        assert(after == positions.remove(at));
        let moved = if place > at {
            place - 1
        } else {
            place
        };
        assert forall|i: int| 0 <= i < moved implies (#[trigger] after[i]).symbol != other by {
            if i < at {
                assert(after[i] == positions[i]);
            } else {
                assert(after[i] == positions[i + 1]);
            }
        }
        assert(moved < after.len() ==> after[moved] == positions[place]);
        lemma_place_is(after, other, moved);
    }
}

/// A fill never gives a market a second position.
pub proof fn fill_keeps_markets_apart(
    positions: Seq<Position>,
    symbol: Seq<char>,
    signed: Double,
    price: Double,
    leverage: Double,
)
    requires
        no_market_twice(positions),
    ensures
        no_market_twice(positions_after(positions, symbol, signed, price, leverage)),
{
    let after = positions_after(positions, symbol, signed, price, leverage);
    let at = place_of(positions, symbol);
    lemma_place_of(positions, symbol);
    assert forall|i: int, j: int| 0 <= i < j < after.len() implies (#[trigger] after[i]).symbol != (
    #[trigger] after[j]).symbol by {
        if at >= positions.len() {
            assert(after[i] == positions[i]);
            if j < positions.len() {
                assert(after[j] == positions[j]);
            }
        } else if after.len() == positions.len() {
            assert(after[i].symbol == positions[i].symbol);
            assert(after[j].symbol == positions[j].symbol);
        } else {
            assert(after == positions.remove(at));
            let a = if i < at {
                i
            } else {
                i + 1
            };
            let b = if j < at {
                j
            } else {
                j + 1
            };
            assert(after[i] == positions[a] && after[j] == positions[b]);
        }
    }
}

/// A fill keeps an account valid.
pub proof fn filled_is_valid(
    account: Account,
    symbol: Seq<char>,
    is_long: bool,
    size: Double,
    price: Double,
)
    requires
        account.valid(),
    ensures
        account.filled(symbol, is_long, size, price).valid(),
{
    let signed = if is_long {
        size
    } else {
        size.negation()
    };
    fill_keeps_markets_apart(account.positions, symbol, signed, price, account.leverage);
}

/// An order that is not refused keeps an account valid.
pub proof fn placed_is_valid(
    account: Account,
    symbol: Seq<char>,
    is_long: bool,
    is_limit: bool,
    size: Double,
    price: Double,
    mark: Double,
)
    requires
        account.valid(),
        account.complaint(size, price, mark) is None,
        account.next_id < u64::MAX,
    ensures
        account.placed(symbol, is_long, is_limit, size, price, mark).valid(),
{
    let counted = Account { next_id: (account.next_id + 1) as u64, ..account };
    assert(counted.valid());
    if let Some(at) = Account::instant_price(is_long, is_limit, price, mark) {
        filled_is_valid(counted, symbol, is_long, size, at);
    } else {
        let after = account.placed(symbol, is_long, is_limit, size, price, mark);
        assert forall|i: int| 0 <= i < after.orders.len() implies usable(
            (#[trigger] after.orders[i]).size,
        ) && usable(after.orders[i].price) && 1 <= after.orders[i].id < after.next_id by {
            if i < account.orders.len() {
                assert(after.orders[i] == account.orders[i]);
            }
        }
        assert forall|i: int, j: int| 0 <= i < j < after.orders.len() implies (
        #[trigger] after.orders[i]).id < (#[trigger] after.orders[j]).id by {
            assert(after.orders[i] == account.orders[i]);
            if j < account.orders.len() {
                assert(after.orders[j] == account.orders[j]);
            }
        }
    }
}

proof fn lemma_fewer_orders(account: Account, keep: spec_fn(Order) -> bool)
    requires
        account.valid(),
    ensures
        (Account { orders: account.orders.filter(keep), ..account }).valid(),
{
    lemma_filter(account.orders, keep);
    let after = account.orders.filter(keep);
    assert forall|i: int| 0 <= i < after.len() implies usable((#[trigger] after[i]).size) && usable(
        after[i].price,
    ) && 1 <= after[i].id < account.next_id by {
        assert(account.orders.contains(after[i]));
        let k = choose|k: int| 0 <= k < account.orders.len() && account.orders[k] == after[i];
        assert(usable(account.orders[k].size));
    }
}

/// Taking back an order keeps an account valid.
pub proof fn cancelled_is_valid(account: Account, id: u64)
    requires
        account.valid(),
    ensures
        account.cancelled(id).valid(),
{
    lemma_fewer_orders(account, |order: Order| order.id != id);
}

/// Filling orders keeps an account valid.
pub proof fn settled_is_valid(account: Account, due: Seq<Order>)
    requires
        account.valid(),
    ensures
        account.settled(due).valid(),
    decreases due.len(),
{
    if due.len() > 0 {
        settled_is_valid(account, due.drop_last());
        let order = due.last();
        filled_is_valid(
            account.settled(due.drop_last()),
            order.symbol,
            order.is_long,
            order.size,
            order.price,
        );
    }
}

/// A mark keeps an account valid.
pub proof fn marked_is_valid(account: Account, symbol: Seq<char>, mark: Double)
    requires
        account.valid(),
    ensures
        account.marked(symbol, mark).valid(),
{
    lemma_fewer_orders(account, Account::rests(symbol, mark));
    settled_is_valid(account.without_due(symbol, mark), account.due(symbol, mark));
}

pub proof fn lemma_settled_orders(account: Account, due: Seq<Order>)
    ensures
        account.settled(due).orders == account.orders,
        account.settled(due).next_id == account.next_id,
        account.settled(due).leverage == account.leverage,
    decreases due.len(),
{
    if due.len() > 0 {
        lemma_settled_orders(account, due.drop_last());
    }
}

/// An order that rests and is taken back leaves the account as it was, but for
/// the id that was given out.
pub proof fn cancel_undoes_place(
    account: Account,
    symbol: Seq<char>,
    is_long: bool,
    size: Double,
    price: Double,
    mark: Double,
)
    requires
        account.valid(),
        account.next_id < u64::MAX,
        !super::crosses(is_long, price, mark),
    ensures
        account.placed(symbol, is_long, true, size, price, mark).cancelled(account.next_id) == (
        Account { next_id: (account.next_id + 1) as u64, ..account }),
{
    let id = account.next_id;
    let keep = |order: Order| order.id != id;
    let after = account.placed(symbol, is_long, true, size, price, mark).orders;
    assert(after.drop_last() == account.orders);
    assert(after.filter(keep) == account.orders.filter(keep)) by {
        reveal(Seq::filter);
    }
    lemma_filter_all(account.orders, keep);
}

/// Taking back an order twice is taking it back once.
pub proof fn cancel_twice(account: Account, id: u64)
    requires
        account.valid(),
    ensures
        account.cancelled(id).cancelled(id) == account.cancelled(id),
{
    let keep = |order: Order| order.id != id;
    lemma_filter(account.orders, keep);
    lemma_filter_all(account.orders.filter(keep), keep);
}

/// After a mark no order is left that this mark meets: the same mark again fills
/// nothing and changes nothing.
pub proof fn marking_settles(account: Account, symbol: Seq<char>, mark: Double)
    requires
        account.valid(),
    ensures
        account.marked(symbol, mark).due(symbol, mark).len() == 0,
        account.marked(symbol, mark).marked(symbol, mark) == account.marked(symbol, mark),
{
    if usable(mark) {
        let rests = Account::rests(symbol, mark);
        let met = Account::is_due(symbol, mark);
        let left = account.orders.filter(rests);
        let after = account.marked(symbol, mark);
        lemma_filter(account.orders, rests);
        lemma_settled_orders(account.without_due(symbol, mark), account.due(symbol, mark));
        assert(after.orders == left);
        lemma_filter_none(left, met);
        lemma_filter_all(left, rests);
        assert(after.due(symbol, mark) =~= Seq::empty());
        assert(after.without_due(symbol, mark) == after);
    }
}

/// A mark touches no order of another market.
pub proof fn mark_leaves_other_orders(account: Account, symbol: Seq<char>, mark: Double, i: int)
    requires
        0 <= i < account.orders.len(),
        account.orders[i].symbol != symbol,
    ensures
        account.marked(symbol, mark).orders.contains(account.orders[i]),
{
    lemma_settled_orders(account.without_due(symbol, mark), account.due(symbol, mark));
    if usable(mark) {
        account.orders.lemma_filter_contains(Account::rests(symbol, mark), i);
    } else {
        assert(account.orders.contains(account.orders[i]));
    }
}

/// One leaves a number as it is, minus one turns its sign.
pub proof fn lemma_unit_product(x: Double)
    requires
        !x.nan(),
    ensures
        x.product(Double { bits: ONE_BITS }) == x,
        x.product(Double { bits: MINUS_ONE_BITS }) == x.negation(),
{
    let one = Double { bits: ONE_BITS };
    let minus = Double { bits: MINUS_ONE_BITS };
    let unit = pow2(UNIT_EXPONENT as nat) as int;
    assert(one.code() == 1023 * BINADE);
    assert(minus.code() == 1023 * BINADE);
    rounding::lemma_powers();
    lemma_pow2_adds(52, 1022);
    assert(Double::magnitude(1023 * BINADE as int) == unit);
    lemma_pow2_pos(UNIT_EXPONENT as nat);
    if !x.infinite() {
        rounding::lemma_nearest_exact(
            Double::magnitude(x.code()) * unit,
            unit,
            x.code(),
        );
    }
}

/// A size and the same size the other way.
proof fn lemma_opposites(size: Double)
    requires
        usable(size),
    ensures
        size.sum(size.negation()) == (Double { bits: 0 }),
        size.negation().sum(size) == (Double { bits: 0 }),
        size.absolute() == size,
        size.negation().absolute() == size,
        !adds(size, size.negation()),
        !adds(size.negation(), size),
        size.unit_sign() == (Double { bits: ONE_BITS }),
        size.negation().unit_sign() == (Double { bits: MINUS_ONE_BITS }),
{
    let other = size.negation();
    assert(other.code() == size.code());
    assert(other.negative() && !size.negative());
}

/// Closing all of a position drops it.
proof fn lemma_close(
    positions: Seq<Position>,
    symbol: Seq<char>,
    signed: Double,
    back: Double,
    entry: Double,
    exit: Double,
    leverage: Double,
)
    requires
        place_of(positions, symbol) == positions.len(),
        signed.sum(back) == (Double { bits: 0 }),
        !adds(signed, back),
    ensures
        ({
            let position = Position { symbol, size: signed, entry, leverage };
            let opened = positions_after(positions, symbol, signed, entry, leverage);
            &&& opened == positions.push(position)
            &&& held_in(opened, symbol) == Some(position)
            &&& positions_after(opened, symbol, back, exit, leverage) == positions
            &&& realized(opened, symbol, back, exit) == gain(position, back, exit)
        }),
{
    let position = Position { symbol, size: signed, entry, leverage };
    let opened = positions_after(positions, symbol, signed, entry, leverage);
    lemma_place_of(positions, symbol);
    assert(opened == positions.push(position));
    lemma_place_is(opened, symbol, positions.len() as int);
    assert((Double { bits: 0 }).absolute().below(Double { bits: super::DUST }));
    assert(opened.remove(positions.len() as int) == positions);
}

/// Opening a position and closing all of it leaves the other positions alone and
/// gains the way of the price, times the size: up for a long, down for a short.
pub proof fn round_trip_gains(
    account: Account,
    symbol: Seq<char>,
    is_long: bool,
    size: Double,
    entry: Double,
    exit: Double,
)
    requires
        usable(size),
        held_in(account.positions, symbol) is None,
        !exit.difference(entry).product(size).nan(),
    ensures
        ({
            let opened = account.filled(symbol, is_long, size, entry);
            let closed = opened.filled(symbol, !is_long, size, exit);
            let way = exit.difference(entry).product(size);
            &&& held_in(opened.positions, symbol) == Some(
                Position {
                    symbol,
                    size: if is_long {
                        size
                    } else {
                        size.negation()
                    },
                    entry,
                    leverage: account.leverage,
                },
            )
            &&& closed.positions == account.positions
            &&& closed.fills[0].realized == if is_long {
                way
            } else {
                way.negation()
            }
        }),
{
    let signed = if is_long {
        size
    } else {
        size.negation()
    };
    let back = if is_long {
        size.negation()
    } else {
        size
    };
    lemma_place_of(account.positions, symbol);
    lemma_opposites(size);
    lemma_close(account.positions, symbol, signed, back, entry, exit, account.leverage);
    lemma_unit_product(exit.difference(entry).product(size));
}

/// An order to the market is filled at once, at the mark.
pub proof fn market_order_fills_at_mark(
    account: Account,
    symbol: Seq<char>,
    is_long: bool,
    size: Double,
    price: Double,
    mark: Double,
)
    ensures
        account.placed(symbol, is_long, false, size, price, mark).orders == account.orders,
        account.placed(symbol, is_long, false, size, price, mark).fills[0] == account.fill_of(
            symbol,
            is_long,
            size,
            mark,
        ),
{
}

/// An order that rests moves no cash and opens no position; it binds its margin.
pub proof fn resting_order_binds_margin(
    account: Account,
    symbol: Seq<char>,
    is_long: bool,
    size: Double,
    price: Double,
    mark: Double,
)
    requires
        !super::crosses(is_long, price, mark),
    ensures
        ({
            let after = account.placed(symbol, is_long, true, size, price, mark);
            &&& after.cash == account.cash
            &&& after.positions == account.positions
            &&& after.fills == account.fills
            &&& super::reserved(after.orders, after.leverage) == super::reserved(
                account.orders,
                account.leverage,
            ).sum(super::margin(size, price, account.leverage))
        }),
{
    let after = account.placed(symbol, is_long, true, size, price, mark);
    assert(after.orders.drop_last() == account.orders);
}

} // verus!
