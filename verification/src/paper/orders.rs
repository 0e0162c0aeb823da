//! What an order needs, and what becomes of it.

use super::laws::{held_in, lemma_filter, lemma_place_of, lemma_settled_orders};
use super::{
    adds, crosses, margin, place_of, positions_after, reserved, usable, Account, Order, Position,
    DEFAULT_LEVERAGE, DUST, STARTING_CASH,
};
use crate::double::arithmetic::UNIT_EXPONENT;
use crate::double::convert::ONE_BITS;
use crate::double::laws::{product_is_near, quotient_is_near, size_of, sum_is_near, unit};
use crate::double::{rounding, Double, BINADE};
use crate::format::laws::{fixed_says_the_number, says_fixed};
use crate::market::laws::lemma_order;
use vstd::arithmetic::power2::*;
use vstd::prelude::*;

verus! {

/// The size of an order times its price, exactly, in squared units.
pub open spec fn worth_of(order: Order) -> int {
    size_of(order.size.value()) * order.price.value()
}

/// What orders are worth together, exactly.
pub open spec fn worth_of_all(orders: Seq<Order>) -> int
    decreases orders.len(),
{
    if orders.len() == 0 {
        0
    } else {
        worth_of_all(orders.drop_last()) + worth_of(orders.last())
    }
}

/// The leverage that counts: at least one.
pub open spec fn counting(leverage: Double) -> Double {
    if leverage.value() < unit() {
        Double { bits: ONE_BITS }
    } else {
        leverage
    }
}

/// The gaps of the results by which a margin is found.
pub open spec fn margin_blur(size: Double, price: Double, leverage: Double) -> int {
    margin(size, price, leverage).gap() * counting(leverage).value() + size.absolute().product(
        price,
    ).gap() * unit()
}

/// The gaps of the results by which the margins of orders are summed up.
pub open spec fn reserved_blur(orders: Seq<Order>, leverage: Double) -> int
    decreases orders.len(),
{
    if orders.len() == 0 {
        0
    } else {
        reserved_blur(orders.drop_last(), leverage) + margin_blur(
            orders.last().size,
            orders.last().price,
            leverage,
        ) + reserved(orders, leverage).gap() * counting(leverage).value()
    }
}

/// The words in which an order is refused for want of margin.
pub open spec fn margin_notice(needed: Seq<char>, available: Seq<char>) -> Seq<char> {
    "need "@ + needed + " USDC margin, available "@ + available
}

/// The larger of two numbers.
pub open spec fn larger_of(a: int, b: int) -> int {
    if a < b {
        b
    } else {
        a
    }
}

proof fn lemma_unit()
    ensures
        unit() > 0,
{
    lemma_pow2_pos(UNIT_EXPONENT as nat);
}

proof fn lemma_absolute(x: Double)
    ensures
        x.absolute().value() == size_of(x.value()),
        x.absolute().code() == x.code(),
        !x.absolute().negative(),
{
    rounding::lemma_magnitude_step(x.code());
}

proof fn lemma_counting(leverage: Double)
    requires
        leverage.finite(),
    ensures
        leverage.larger(Double { bits: ONE_BITS }) == counting(leverage),
        counting(leverage).finite(),
        !counting(leverage).zero(),
        counting(leverage).value() >= unit(),
{
    let one = Double { bits: ONE_BITS };
    crate::format::laws::limits_are_round();
    lemma_unit();
    rounding::lemma_powers();
    rounding::lemma_magnitude_of(0, 0);
    assert(one.code() == ONE_BITS);
    lemma_order(leverage, one);
}

/// A margin times the leverage is the size times the price, as far as its gaps say.
pub proof fn margin_is_worth_by_leverage(size: Double, price: Double, leverage: Double)
    requires
        leverage.finite(),
        margin(size, price, leverage).finite(),
    ensures
        2 * size_of(
            margin(size, price, leverage).value() * counting(leverage).value() - size_of(
                size.value(),
            ) * price.value(),
        ) <= margin_blur(size, price, leverage),
{
    let worth = size.absolute().product(price);
    let by = counting(leverage);
    lemma_unit();
    lemma_counting(leverage);
    lemma_absolute(size);
    quotient_is_near(worth, by);
    product_is_near(size.absolute(), price);
    assert(size_of(by.value()) == by.value());
}

/// The margins of orders together, times the leverage, are what the orders are
/// worth, as far as the gaps say.
pub proof fn reserved_is_worth_by_leverage(orders: Seq<Order>, leverage: Double)
    requires
        leverage.finite(),
        reserved(orders, leverage).finite(),
    ensures
        2 * size_of(
            reserved(orders, leverage).value() * counting(leverage).value() - worth_of_all(orders),
        ) <= reserved_blur(orders, leverage),
    decreases orders.len(),
{
    let by = counting(leverage).value();
    lemma_counting(leverage);
    lemma_unit();
    if orders.len() == 0 {
        rounding::lemma_magnitude_of(0, 0);
        rounding::lemma_powers();
        assert(reserved(orders, leverage).value() == 0);
        assert(0 * by == 0);
    } else {
        let front = reserved(orders.drop_last(), leverage);
        let last = orders.last();
        let one = margin(last.size, last.price, leverage);
        let sum = reserved(orders, leverage);
        sum_is_near(front, one);
        reserved_is_worth_by_leverage(orders.drop_last(), leverage);
        margin_is_worth_by_leverage(last.size, last.price, leverage);
        let slip = sum.value() - (front.value() + one.value());
        assert(slip * by == sum.value() * by - front.value() * by - one.value() * by)
            by (nonlinear_arith)
            requires
                slip == sum.value() - (front.value() + one.value()),
        ;
        assert(2 * size_of(slip * by) <= sum.gap() * by) by (nonlinear_arith)
            requires
                2 * size_of(slip) <= sum.gap(),
                by > 0,
        ;
    }
}

/// What is left of the cash after the margins, but never less than nothing, and the
/// dust bound the margin of an order that is accepted, as far as the gaps say.
proof fn lemma_margin_bound(account: Account, size: Double, price: Double, mark: Double)
    requires
        account.complaint(size, price, mark) is None,
        account.leverage.finite(),
        account.cash.difference(reserved(account.orders, account.leverage)).finite(),
        account.free().sum(Double { bits: DUST }).finite(),
    ensures
        margin(size, price, account.leverage).finite(),
        2 * margin(size, price, account.leverage).value() <= 2 * larger_of(
            account.cash.value() - reserved(account.orders, account.leverage).value(),
            0,
        ) + 2 * (Double { bits: DUST }).value() + account.cash.difference(
            reserved(account.orders, account.leverage),
        ).gap() + account.free().sum(Double { bits: DUST }).gap(),
{
    let dust = Double { bits: DUST };
    let free = account.free();
    let limit = free.sum(dust);
    let one = margin(size, price, account.leverage);
    assert(!limit.below(one));
    lemma_margin_number(size, price, account.leverage);
    assert(one.finite());
    free_is_cash_less_reserved(account);
    sum_is_near(free, dust);
    lemma_order(limit, one);
}

/// The sums and products by which a bound on a margin becomes one on what the orders
/// are worth.
proof fn lemma_cover(
    m: int,
    c: int,
    r: int,
    dust: int,
    gaps: int,
    by: int,
    before: int,
    new: int,
    blur_before: int,
    blur_new: int,
)
    requires
        by > 0,
        2 * m <= 2 * larger_of(c - r, 0) + 2 * dust + gaps,
        2 * size_of(r * by - before) <= blur_before,
        2 * size_of(m * by - new) <= blur_new,
    ensures
        2 * (before + new) <= larger_of(2 * c * by, 2 * before) + 2 * dust * by + blur_before
            + blur_new + gaps * by,
{
    let top = larger_of(c - r, 0);
    assert(2 * (m * by) <= (2 * top + 2 * dust + gaps) * by) by (nonlinear_arith)
        requires
            2 * m <= 2 * top + 2 * dust + gaps,
            by > 0,
    ;
    assert((2 * top + 2 * dust + gaps) * by == 2 * (top * by) + 2 * dust * by + gaps * by)
        by (nonlinear_arith);
    assert((c - r) * by == c * by - r * by) by (nonlinear_arith);
    assert(0 * by == 0);
    assert(2 * c * by == 2 * (c * by)) by (nonlinear_arith);
}

/// An order that is accepted is covered by the cash that no resting order binds:
/// what it and all resting orders are worth together is at most the cash and a
/// billionth, times the leverage, or a billionth's worth more than before, where
/// the resting orders were worth more already. This holds up to half the gaps of
/// the results on the way, for finite cash and leverage.
#[verifier::rlimit(40)]
pub proof fn accepted_orders_are_covered(
    account: Account,
    size: Double,
    price: Double,
    mark: Double,
)
    requires
        account.complaint(size, price, mark) is None,
        account.leverage.finite(),
        reserved(account.orders, account.leverage).finite(),
        account.cash.difference(reserved(account.orders, account.leverage)).finite(),
        account.free().sum(Double { bits: DUST }).finite(),
    ensures
        ({
            let by = counting(account.leverage).value();
            let before = worth_of_all(account.orders);
            let left = account.cash.difference(reserved(account.orders, account.leverage));
            2 * (before + size_of(size.value()) * price.value()) <= larger_of(
                2 * account.cash.value() * by,
                2 * before,
            ) + 2 * (Double { bits: DUST }).value() * by + reserved_blur(
                account.orders,
                account.leverage,
            ) + margin_blur(size, price, account.leverage) + (left.gap() + account.free().sum(
                Double { bits: DUST },
            ).gap()) * by
        }),
{
    let by = counting(account.leverage).value();
    let bound = reserved(account.orders, account.leverage);
    let one = margin(size, price, account.leverage);
    lemma_unit();
    lemma_counting(account.leverage);
    lemma_margin_bound(account, size, price, mark);
    reserved_is_worth_by_leverage(account.orders, account.leverage);
    margin_is_worth_by_leverage(size, price, account.leverage);
    lemma_cover(
        one.value(),
        account.cash.value(),
        bound.value(),
        (Double { bits: DUST }).value(),
        account.cash.difference(bound).gap() + account.free().sum(Double { bits: DUST }).gap(),
        by,
        worth_of_all(account.orders),
        size_of(size.value()) * price.value(),
        reserved_blur(account.orders, account.leverage),
        margin_blur(size, price, account.leverage),
    );
}

/// A limit order that is accepted and rests leaves all resting orders covered, as
/// `accepted_orders_are_covered` says: together they are worth at most the cash and a
/// billionth, times the leverage, where they were worth no more than the cash before.
pub proof fn resting_orders_stay_covered(
    account: Account,
    symbol: Seq<char>,
    is_long: bool,
    size: Double,
    price: Double,
    mark: Double,
)
    requires
        account.complaint(size, price, mark) is None,
        account.leverage.finite(),
        reserved(account.orders, account.leverage).finite(),
        account.cash.difference(reserved(account.orders, account.leverage)).finite(),
        account.free().sum(Double { bits: DUST }).finite(),
        if is_long {
            mark.value() > price.value()
        } else {
            mark.value() < price.value()
        },
        worth_of_all(account.orders) <= account.cash.value() * counting(account.leverage).value(),
    ensures
        ({
            let after = account.placed(symbol, is_long, true, size, price, mark);
            let by = counting(account.leverage).value();
            let left = account.cash.difference(reserved(account.orders, account.leverage));
            &&& after.cash == account.cash && after.leverage == account.leverage
            &&& 2 * worth_of_all(after.orders) <= 2 * (account.cash.value() + (
            Double { bits: DUST }).value()) * by + reserved_blur(account.orders, account.leverage)
                + margin_blur(size, price, account.leverage) + (left.gap() + account.free().sum(
                Double { bits: DUST },
            ).gap()) * by
        }),
{
    let after = account.placed(symbol, is_long, true, size, price, mark);
    let by = counting(account.leverage).value();
    let dust = (Double { bits: DUST }).value();
    accepted_orders_are_covered(account, size, price, mark);
    orders_are_refused_for_a_reason(account, size, price, mark);
    limits_are_met(price, mark);
    let new = Order { id: account.next_id, symbol, is_long, size, price };
    assert(after.orders == account.orders.push(new));
    assert(account.orders.push(new).drop_last() == account.orders);
    assert(worth_of_all(after.orders) == worth_of_all(account.orders) + worth_of(new));
    assert(2 * (account.cash.value() + dust) * by == 2 * account.cash.value() * by + 2 * dust * by)
        by (nonlinear_arith);
    assert(2 * account.cash.value() * by == 2 * (account.cash.value() * by)) by (nonlinear_arith);
}

/// An order of usable numbers is refused only where its margin is more than the cash
/// that no resting order binds and a billionth, as far as the gaps say. The reason
/// names the margin and what is free, each to the cent.
pub proof fn refused_orders_are_not_covered(
    account: Account,
    size: Double,
    price: Double,
    mark: Double,
)
    requires
        account.complaint(size, price, mark) is Some,
        usable(size),
        usable(price),
        usable(mark),
        account.leverage.finite(),
        margin(size, price, account.leverage).finite(),
        account.cash.difference(reserved(account.orders, account.leverage)).finite(),
        account.free().sum(Double { bits: DUST }).finite(),
    ensures
        2 * margin(size, price, account.leverage).value() >= 2 * larger_of(
            account.cash.value() - reserved(account.orders, account.leverage).value(),
            0,
        ) + 2 * (Double { bits: DUST }).value() - account.cash.difference(
            reserved(account.orders, account.leverage),
        ).gap() - account.free().sum(Double { bits: DUST }).gap(),
        exists|needed: Seq<char>, available: Seq<char>|
            {
                &&& account.complaint(size, price, mark) == Some(
                    #[trigger] margin_notice(needed, available),
                )
                &&& says_fixed(
                    needed,
                    false,
                    margin(size, price, account.leverage).value(),
                    100,
                    2,
                )
                &&& says_fixed(available, account.free().negative(), account.free().value(), 100, 2)
            },
{
    let dust = Double { bits: DUST };
    let free = account.free();
    let limit = free.sum(dust);
    let one = margin(size, price, account.leverage);
    assert(limit.below(one));
    lemma_margin_number(size, price, account.leverage);
    free_is_cash_less_reserved(account);
    sum_is_near(free, dust);
    lemma_order(limit, one);
    fixed_says_the_number(one, 2);
    fixed_says_the_number(free, 2);
    rounding::lemma_magnitude_step(free.code());
    assert(one.value() == Double::magnitude(one.code()));
    assert(free.value() == Double::magnitude(free.code()));
    assert(account.complaint(size, price, mark) == Some(
        margin_notice(one.fixed(2), free.fixed(2)),
    ));
}

/// Less than a billionth counts as dust: the bound is the number nearest to it.
pub proof fn dust_is_a_billionth()
    ensures
        2 * size_of(1_000_000_000 * (Double { bits: DUST }).value() - unit()) <= 1_000_000_000 * (
        Double { bits: DUST }).gap(),
{
    let dust = Double { bits: DUST };
    let r = 0x11_2e0b_e826_d695int;
    let p = pow2(992) as int;
    rounding::lemma_powers();
    assert(dust.code() == DUST);
    assert(DUST == 992 * BINADE + r);
    rounding::lemma_magnitude_of(992, r);
    rounding::lemma_magnitude_of(992, r + 1);
    assert(!dust.negative());
    assert((r + 1) * p == r * p + p) by (nonlinear_arith);
    assert(dust.value() == r * p && dust.gap() == p);
    lemma2_to64();
    lemma_pow2_adds(64, 18);
    lemma_pow2_adds(82, 992);
    lemma_pow2_pos(992);
    assert(1_000_000_000 * (r * p) == (1_000_000_000 * r) * p) by (nonlinear_arith);
    let t = 0x4_0000_0000_0000_0000_0000int;
    assert(pow2(82) == t);
    assert(unit() == t * p);
    let d = 1_000_000_000 * r - t;
    assert(d * p == (1_000_000_000 * r) * p - t * p) by (nonlinear_arith)
        requires
            d == 1_000_000_000 * r - t,
    ;
    assert(2 * size_of(d) <= 1_000_000_000);
    assert(2 * size_of(d * p) <= 1_000_000_000 * p) by (nonlinear_arith)
        requires
            2 * size_of(d) <= 1_000_000_000,
            p > 0,
    ;
}

/// A margin of usable numbers is a number.
proof fn lemma_margin_number(size: Double, price: Double, leverage: Double)
    requires
        usable(size),
        usable(price),
        leverage.finite(),
    ensures
        !margin(size, price, leverage).nan(),
        !margin(size, price, leverage).negative(),
{
    let worth = size.absolute().product(price);
    let by = counting(leverage);
    lemma_counting(leverage);
    lemma_absolute(size);
    lemma_unit();
    rounding::lemma_magnitude_step(size.code());
    rounding::lemma_magnitude_step(price.code());
    rounding::lemma_magnitude_step(by.code());
    rounding::lemma_powers();
    rounding::lemma_magnitude_of(0, 0);
    rounding::lemma_magnitude_grows(0, by.code());
    let a = Double::magnitude(size.code());
    let b = Double::magnitude(price.code());
    assert(a * b >= 0) by (nonlinear_arith)
        requires
            a >= 0,
            b >= 0,
    ;
    rounding::nearest_code_exists(a * b, unit());
    assert(!worth.nan() && !worth.negative());
    if worth.finite() {
        let w = Double::magnitude(worth.code());
        rounding::lemma_magnitude_step(worth.code());
        assert(w * unit() >= 0) by (nonlinear_arith)
            requires
                w >= 0,
                unit() > 0,
        ;
        assert(!by.negative());
        rounding::nearest_code_exists(w * unit(), Double::magnitude(by.code()));
    }
}

/// An order is refused where its size, its price or the mark is not a finite number
/// above zero, or where the margin is more than is free; the first of these reasons
/// is told.
pub proof fn orders_are_refused_for_a_reason(
    account: Account,
    size: Double,
    price: Double,
    mark: Double,
)
    ensures
        account.complaint(size, price, mark) is None ==> {
            &&& size.finite() && size.value() > 0
            &&& price.finite() && price.value() > 0
            &&& mark.finite() && mark.value() > 0
        },
        !size.finite() || size.value() <= 0 ==> account.complaint(size, price, mark) == Some(
            "size must be greater than 0"@,
        ),
        size.finite() && size.value() > 0 && (!price.finite() || price.value() <= 0)
            ==> account.complaint(size, price, mark) == Some("price must be greater than 0"@),
        size.finite() && size.value() > 0 && price.finite() && price.value() > 0 && (!mark.finite()
            || mark.value() <= 0) ==> account.complaint(size, price, mark) == Some(
            "no mark yet"@,
        ),
{
    if size.finite() {
        lemma_order(size, size);
    }
    if price.finite() {
        lemma_order(price, price);
    }
    if mark.finite() {
        lemma_order(mark, mark);
    }
}

/// A limit to buy is met by marks at or below it, a limit to sell by marks at or
/// above it.
pub proof fn limits_are_met(limit: Double, mark: Double)
    requires
        limit.finite(),
        mark.finite(),
    ensures
        crosses(true, limit, mark) == (mark.value() <= limit.value()),
        crosses(false, limit, mark) == (mark.value() >= limit.value()),
{
    lemma_order(limit, mark);
    lemma_order(mark, limit);
}

/// A new account has ten thousand in cash, a leverage of ten, and nothing else.
pub proof fn new_accounts_are_empty()
    ensures
        Account::opened().cash.value() == 10_000 * unit(),
        Account::opened().leverage.value() == 10 * unit(),
        Account::opened().positions.len() == 0,
        Account::opened().orders.len() == 0,
        Account::opened().fills.len() == 0,
        Account::opened().next_id == 1,
{
    rounding::lemma_powers();
    lemma2_to64();
    lemma_pow2_adds(32, 7);
    lemma_pow2_adds(39, 1035);
    lemma_pow2_adds(32, 17);
    lemma_pow2_adds(49, 1025);
    assert(STARTING_CASH as int / BINADE as int == 1036 && STARTING_CASH as int % BINADE as int
        == 0x3_8800_0000_0000);
    assert(DEFAULT_LEVERAGE as int / BINADE as int == 1026 && DEFAULT_LEVERAGE as int
        % BINADE as int == 0x4_0000_0000_0000);
    let p = pow2(1035) as int;
    let q = pow2(1025) as int;
    assert(0x13_8800_0000_0000 * p == 10_000 * (0x80_0000_0000 * p)) by (nonlinear_arith);
    assert(0x14_0000_0000_0000 * q == 10 * (0x2_0000_0000_0000 * q)) by (nonlinear_arith);
    assert((Double { bits: STARTING_CASH }).code() == STARTING_CASH);
    assert((Double { bits: DEFAULT_LEVERAGE }).code() == DEFAULT_LEVERAGE);
}

/// A fill says what was filled, stands in front of the older fills, of which at
/// most forty are kept in all, and its gain goes to the cash.
pub proof fn fills_say_what_was_filled(
    account: Account,
    symbol: Seq<char>,
    is_long: bool,
    size: Double,
    price: Double,
    i: int,
)
    ensures
        ({
            let after = account.filled(symbol, is_long, size, price);
            let fill = after.fills[0];
            &&& after.fills.len() >= 1
            &&& fill.symbol == symbol && fill.is_long == is_long && fill.size == size && fill.price
                == price
            &&& after.cash == account.cash.sum(fill.realized)
            &&& account.fills.len() <= 40 ==> after.fills.len() <= 40
            &&& account.fills.len() < 40 ==> after.fills.len() == account.fills.len() + 1
            &&& 0 <= i < account.fills.len() && i < 39 ==> after.fills[i + 1] == account.fills[i]
            &&& after.orders == account.orders && after.leverage == account.leverage
                && after.next_id == account.next_id
        }),
{
}

/// An order to the market is filled at the mark. A limit that the mark meets is
/// filled at its own price. Any other limit rests as it is, behind the others, and
/// binds cash but moves none.
pub proof fn orders_fill_or_rest(
    account: Account,
    symbol: Seq<char>,
    is_long: bool,
    is_limit: bool,
    size: Double,
    price: Double,
    mark: Double,
)
    requires
        price.finite(),
        mark.finite(),
        account.next_id < u64::MAX,
    ensures
        ({
            let after = account.placed(symbol, is_long, is_limit, size, price, mark);
            let met = if is_long {
                mark.value() <= price.value()
            } else {
                mark.value() >= price.value()
            };
            &&& after.next_id == account.next_id + 1
            &&& !is_limit || met ==> {
                &&& after.orders == account.orders
                &&& after.fills.len() > 0
                &&& after.fills[0].symbol == symbol && after.fills[0].is_long == is_long
                    && after.fills[0].size == size
                &&& after.fills[0].price == if is_limit {
                    price
                } else {
                    mark
                }
            }
            &&& is_limit && !met ==> {
                &&& after.orders.len() == account.orders.len() + 1
                &&& after.orders.drop_last() == account.orders
                &&& after.orders.last() == (Order {
                    id: account.next_id,
                    symbol,
                    is_long,
                    size,
                    price,
                })
                &&& after.fills == account.fills && after.cash == account.cash && after.positions
                    == account.positions
            }
        }),
{
    limits_are_met(price, mark);
    let after = account.placed(symbol, is_long, is_limit, size, price, mark);
    assert(is_limit && !crosses(is_long, price, mark) ==> after.orders.drop_last()
        == account.orders);
}

/// A mark fills the orders of its market that it meets, and no others: none that it
/// meets is left, and every other is.
pub proof fn marks_fill_what_they_meet(account: Account, symbol: Seq<char>, mark: Double, i: int)
    requires
        account.valid(),
        mark.finite(),
        mark.value() > 0,
        0 <= i < account.orders.len(),
    ensures
        ({
            let order = account.orders[i];
            let after = account.marked(symbol, mark);
            let met = order.symbol == symbol && if order.is_long {
                mark.value() <= order.price.value()
            } else {
                mark.value() >= order.price.value()
            };
            &&& met ==> account.due(symbol, mark).contains(order) && !after.orders.contains(order)
            &&& !met ==> !account.due(symbol, mark).contains(order) && after.orders.contains(order)
        }),
{
    let order = account.orders[i];
    lemma_order(mark, mark);
    limits_are_met(order.price, mark);
    lemma_settled_orders(account.without_due(symbol, mark), account.due(symbol, mark));
    let is_due = Account::is_due(symbol, mark);
    let rests = Account::rests(symbol, mark);
    lemma_filter(account.orders, is_due);
    lemma_filter(account.orders, rests);
    if is_due(order) {
        account.orders.lemma_filter_contains(is_due, i);
        let left = account.orders.filter(rests);
        if left.contains(order) {
            let k = choose|k: int| 0 <= k < left.len() && left[k] == order;
            assert(rests(left[k]));
        }
    } else {
        account.orders.lemma_filter_contains(rests, i);
        let due = account.orders.filter(is_due);
        if due.contains(order) {
            let k = choose|k: int| 0 <= k < due.len() && due[k] == order;
            assert(is_due(due[k]));
        }
    }
}

/// A resting order is filled as it was placed: its own market, side, size and price.
pub proof fn resting_orders_fill_as_placed(account: Account, due: Seq<Order>, i: int)
    requires
        0 <= i < due.len(),
    ensures
        account.settlement(due).len() == due.len(),
        account.settlement(due)[i].symbol == due[i].symbol,
        account.settlement(due)[i].is_long == due[i].is_long,
        account.settlement(due)[i].size == due[i].size,
        account.settlement(due)[i].price == due[i].price,
{
}

/// The orders that are due are filled one after the other, the oldest first: the
/// newest of the fills is that of the last.
pub proof fn settlement_goes_in_order(account: Account, due: Seq<Order>)
    requires
        due.len() > 0,
    ensures
        account.settled(due).fills[0] == account.settlement(due).last(),
        account.settled(due).cash == account.settled(due.drop_last()).cash.sum(
            account.settlement(due).last().realized,
        ),
{
    assert(due.take(due.len() - 1) == due.drop_last());
}

/// Taking back an id takes back the order of that id and no other, and nothing but
/// that.
pub proof fn cancel_takes_one_order(account: Account, id: u64, i: int)
    requires
        account.valid(),
        0 <= i < account.orders.len(),
    ensures
        account.cancelled(id).orders.contains(account.orders[i]) == (account.orders[i].id != id),
        !account.cancelled(id).holds(id),
        account.cancelled(id).cash == account.cash,
        account.cancelled(id).positions == account.positions,
        account.cancelled(id).fills == account.fills,
        account.cancelled(id).next_id == account.next_id,
{
    let keep = |order: Order| order.id != id;
    let after = account.orders.filter(keep);
    lemma_filter(account.orders, keep);
    if account.orders[i].id != id {
        account.orders.lemma_filter_contains(keep, i);
    } else if after.contains(account.orders[i]) {
        let k = choose|k: int| 0 <= k < after.len() && after[k] == account.orders[i];
        assert(keep(after[k]));
    }
    if account.cancelled(id).holds(id) {
        let k = choose|k: int| 0 <= k < after.len() && (#[trigger] after[k]).id == id;
        assert(keep(after[k]));
    }
}

proof fn lemma_not_below_zero(x: Double)
    requires
        x.finite(),
    ensures
        x.larger(Double { bits: 0 }).finite(),
        x.larger(Double { bits: 0 }).value() == larger_of(x.value(), 0),
{
    rounding::lemma_magnitude_of(0, 0);
    rounding::lemma_powers();
    assert((Double { bits: 0 }).value() == 0);
    lemma_order(x, Double { bits: 0 });
}

/// What is free is the cash less what the orders bind, but for rounding, and never
/// less than nothing.
#[verifier::rlimit(40)]
pub proof fn free_is_cash_less_reserved(account: Account)
    requires
        account.cash.difference(reserved(account.orders, account.leverage)).finite(),
    ensures
        ({
            let bound = reserved(account.orders, account.leverage);
            let left = account.cash.difference(bound);
            &&& account.free().finite() && account.free().value() >= 0
            &&& 2 * size_of(
                account.free().value() - larger_of(account.cash.value() - bound.value(), 0),
            ) <= left.gap()
        }),
{
    let bound = reserved(account.orders, account.leverage);
    let left = account.cash.difference(bound);
    lemma_not_below_zero(left);
    lemma_absolute(bound);
    assert(bound.negation().code() == bound.code() && bound.negation().negative()
        == !bound.negative());
    assert(bound.negation().value() == -bound.value());
    sum_is_near(account.cash, bound.negation());
}

/// A fill of a market without a position opens one of its size, its side and its
/// price.
pub proof fn first_fill_opens(
    positions: Seq<Position>,
    symbol: Seq<char>,
    signed: Double,
    price: Double,
    leverage: Double,
)
    requires
        held_in(positions, symbol) is None,
    ensures
        positions_after(positions, symbol, signed, price, leverage) == positions.push(
            Position { symbol, size: signed, entry: price, leverage },
        ),
{
    lemma_place_of(positions, symbol);
}

/// A fill against a larger position closes a part of it: what is left keeps its
/// entry, and its size is the difference, but for rounding. A fill against a smaller
/// one turns the position over at the fill's price.
pub proof fn opposite_fills_close_or_turn(
    positions: Seq<Position>,
    symbol: Seq<char>,
    signed: Double,
    price: Double,
    leverage: Double,
)
    requires
        held_in(positions, symbol) is Some,
        held_in(positions, symbol)->0.size.finite(),
        signed.finite(),
        held_in(positions, symbol)->0.size.value() < 0 < signed.value()
            || signed.value() < 0 < held_in(positions, symbol)->0.size.value(),
        size_of(held_in(positions, symbol)->0.size.value() + signed.value()) >= 2 * (
        Double { bits: DUST }).value(),
        held_in(positions, symbol)->0.size.sum(signed).finite(),
    ensures
        ({
            let at = place_of(positions, symbol);
            let old = positions[at];
            let after = positions_after(positions, symbol, signed, price, leverage);
            let new = after[at];
            &&& after.len() == positions.len()
            &&& new.symbol == symbol && new.leverage == old.leverage
            &&& 2 * size_of(new.size.value() - (old.size.value() + signed.value()))
                <= new.size.gap()
            &&& size_of(signed.value()) < size_of(old.size.value()) ==> new.entry == old.entry
            &&& size_of(signed.value()) > size_of(old.size.value()) ==> new.entry == price
        }),
{
    let at = place_of(positions, symbol);
    let old = positions[at];
    let dust = Double { bits: DUST };
    let sum = old.size.sum(signed);
    lemma_place_of(positions, symbol);
    lemma_absolute(sum);
    rounding::lemma_magnitude_of(0, 0);
    rounding::lemma_powers();
    rounding::lemma_magnitude_step(old.size.code());
    rounding::lemma_magnitude_step(signed.code());
    sum_is_near(old.size, signed);
    assert(old.size.negative() != signed.negative());
    assert(!adds(old.size, signed)) by {
        lemma_order(old.size, Double { bits: 0 });
    }
    let n = size_of(old.size.value() + signed.value());
    assert(!sum.absolute().below(dust)) by {
        assert(dust.code() == DUST);
        rounding::lemma_magnitude_grows(0, dust.code());
        if sum.absolute().below(dust) {
            crate::double::laws::sum_keeps_below(old.size, signed, dust);
        }
    }
    rounding::nearest_code_exists(n, 1);
    assert(sum.negative() == (old.size.value() + signed.value() < 0));
}

} // verus!
