//! A fill at the mark moves profit between cash and positions and makes none.
//!
//! Amounts are counted here in squared units, of `2^-2148`: a price times a size
//! comes out whole, and a number of cash counts as often as one has units. A
//! result that is rounded lies within half its gap of the exact one, so that
//! errors are bounded by gaps, of which each counts half.

use super::laws::{lemma_place_of, lemma_unit_product};
use super::{
    adds, gain, lemma_unrealized_prefix, place_of, positions_after, prices_by, realized, unrealized,
    usable, Account, Position, DUST,
};
use crate::double::laws::{
    gap_is_small, product_is_near, quotient_is_near, size_of, sum_is_near, sum_keeps_below, unit,
};
use crate::double::{rounding, Double};
use crate::market::EPSILON;
use vstd::arithmetic::power2::*;
use vstd::prelude::*;

verus! {

/// What a position is worth at a price, exactly.
pub open spec fn exact_worth(position: Position, mark: Option<Double>) -> int {
    match mark {
        Some(mark) => (mark.value() - position.entry.value()) * position.size.value(),
        None => 0,
    }
}

/// What positions are worth at some prices, exactly.
pub open spec fn exact_total(
    positions: Seq<Position>,
    given: spec_fn(Seq<char>) -> Option<Double>,
) -> int
    decreases positions.len(),
{
    if positions.len() == 0 {
        0
    } else {
        exact_total(positions.drop_last(), given) + exact_worth(
            positions.last(),
            given(positions.last().symbol),
        )
    }
}

/// The gaps of the results by which a position's worth is found.
pub open spec fn worth_blur(position: Position, mark: Option<Double>) -> int {
    match mark {
        Some(mark) => {
            let way = mark.difference(position.entry);
            way.product(position.size).gap() * unit() + way.gap() * size_of(position.size.value())
        },
        None => 0,
    }
}

/// The gaps of the results by which the positions' worth is found.
pub open spec fn total_blur(
    positions: Seq<Position>,
    given: spec_fn(Seq<char>) -> Option<Double>,
) -> int
    decreases positions.len(),
{
    if positions.len() == 0 {
        0
    } else {
        total_blur(positions.drop_last(), given) + worth_blur(
            positions.last(),
            given(positions.last().symbol),
        ) + unrealized(positions, prices_by(positions, given)).gap() * unit()
    }
}

impl Account {
    /// The gaps of the results by which the equity is found.
    pub open spec fn equity_blur(self, given: spec_fn(Seq<char>) -> Option<Double>) -> int {
        total_blur(self.positions, given) + self.equity(given).gap() * unit()
    }
}

/// The gaps of the results by which a position grows.
pub open spec fn growth_blur(position: Position, signed: Double, price: Double) -> int {
    let size = position.size.sum(signed);
    let old = position.entry.product(position.size.absolute());
    let new = price.product(signed.absolute());
    let both = old.sum(new);
    let entry = both.quotient(size.absolute());
    size_of(price.value()) * size.gap() + entry.gap() * size_of(size.value()) + (old.gap()
        + new.gap() + both.gap()) * unit()
}

/// The gaps of the results by which a part of a position is closed.
pub open spec fn closing_blur(position: Position, signed: Double, price: Double) -> int {
    let size = position.size.sum(signed);
    let way = price.difference(position.entry);
    let closing = position.size.absolute().smaller(signed.absolute());
    way.product(closing).gap() * unit() + way.gap() * closing.value() + size_of(
        price.value() - position.entry.value(),
    ) * size.gap()
}

/// The gaps of the results by which a fill is entered.
pub open spec fn fill_blur(account: Account, symbol: Seq<char>, signed: Double, price: Double) -> int {
    let at = place_of(account.positions, symbol);
    let booked = account.cash.sum(realized(account.positions, symbol, signed, price)).gap()
        * unit();
    if at >= account.positions.len() {
        booked
    } else {
        let position = account.positions[at];
        booked + if !adds(position.size, signed) {
            closing_blur(position, signed, price)
        } else if position.size.absolute().below(Double { bits: EPSILON }) {
            0
        } else {
            growth_blur(position, signed, price)
        }
    }
}

/// The size that a fill drops: what is left of a position that counts as closed,
/// and a size of next to nothing whose entry is forgotten when the position grows.
pub open spec fn dropped_size(current: Double, signed: Double) -> int {
    if adds(current, signed) {
        if current.absolute().below(Double { bits: EPSILON }) {
            size_of(current.value())
        } else {
            0
        }
    } else if current.sum(signed).absolute().below(Double { bits: DUST }) {
        size_of(current.value()) - current.absolute().smaller(signed.absolute()).value()
    } else {
        0
    }
}

/// What the dropped size was worth.
pub open spec fn dropped_worth(
    positions: Seq<Position>,
    symbol: Seq<char>,
    signed: Double,
    price: Double,
) -> int {
    let at = place_of(positions, symbol);
    if at >= positions.len() {
        0
    } else {
        size_of(price.value() - positions[at].entry.value()) * dropped_size(
            positions[at].size,
            signed,
        )
    }
}

proof fn lemma_unit()
    ensures
        unit() > 0,
{
    lemma_pow2_pos(crate::double::arithmetic::UNIT_EXPONENT as nat);
}

proof fn lemma_negation(x: Double)
    ensures
        x.negation().code() == x.code(),
        x.negation().negative() == !x.negative(),
        x.negation().value() == -x.value(),
        x.absolute().code() == x.code(),
        !x.absolute().negative(),
        x.absolute().value() == size_of(x.value()),
        x.absolute().value() >= 0,
{
    rounding::lemma_magnitude_step(x.code());
}

/// What is at most half a bound is so in every multiple.
pub proof fn lemma_scaled(x: int, bound: int, factor: int)
    requires
        2 * size_of(x) <= bound,
    ensures
        2 * size_of(x * factor) <= bound * size_of(factor),
{
    assert(size_of(x * factor) == size_of(x) * size_of(factor)) by {
        if x < 0 {
            assert((-x) * factor == -(x * factor)) by (nonlinear_arith);
        }
        if factor < 0 {
            assert(x * (-factor) == -(x * factor) && (-x) * (-factor) == x * factor)
                by (nonlinear_arith);
        }
        assert(x >= 0 && factor >= 0 ==> x * factor >= 0) by (nonlinear_arith);
        assert(x < 0 && factor >= 0 ==> x * factor <= 0) by (nonlinear_arith);
        assert(x >= 0 && factor < 0 ==> x * factor <= 0) by (nonlinear_arith);
        assert(x < 0 && factor < 0 ==> x * factor >= 0) by (nonlinear_arith);
    }
    assert(2 * (size_of(x) * size_of(factor)) <= bound * size_of(factor)) by (nonlinear_arith)
        requires
            2 * size_of(x) <= bound,
            size_of(factor) >= 0,
    ;
}

/// A finite difference lies within half a gap of the exact one.
proof fn lemma_difference(a: Double, b: Double)
    requires
        a.difference(b).finite(),
    ensures
        a.finite(),
        b.finite(),
        2 * size_of(a.difference(b).value() - (a.value() - b.value())) <= a.difference(b).gap(),
{
    lemma_negation(b);
    sum_is_near(a, b.negation());
}

/// A finite worth lies as near to the exact one as its gaps say.
proof fn lemma_worth(position: Position, mark: Double)
    requires
        mark.difference(position.entry).product(position.size).finite(),
    ensures
        position.entry.finite(),
        position.size.finite(),
        mark.difference(position.entry).finite(),
        2 * size_of(
            mark.difference(position.entry).product(position.size).value() * unit() - exact_worth(
                position,
                Some(mark),
            ),
        ) <= worth_blur(position, Some(mark)),
{
    let way = mark.difference(position.entry);
    let size = position.size.value();
    product_is_near(way, position.size);
    lemma_difference(mark, position.entry);
    let exact = mark.value() - position.entry.value();
    lemma_scaled(way.value() - exact, way.gap(), size);
    assert((way.value() - exact) * size == way.value() * size - exact * size) by (nonlinear_arith);
}

/// A position's worth, or nothing where its market has no price.
spec fn worth_of(position: Position, mark: Option<Double>) -> Double {
    match mark {
        Some(mark) => mark.difference(position.entry).product(position.size),
        None => Double { bits: 0 },
    }
}

proof fn lemma_worth_or_none(position: Position, mark: Option<Double>)
    requires
        worth_of(position, mark).finite(),
    ensures
        2 * size_of(
            worth_of(position, mark).value() * unit() - exact_worth(position, mark),
        ) <= worth_blur(position, mark),
{
    match mark {
        Some(mark) => {
            lemma_worth(position, mark);
        },
        None => {
            rounding::lemma_magnitude_of(0, 0);
            rounding::lemma_powers();
            assert(worth_of(position, mark).value() == 0);
            assert(0 * unit() == 0);
        },
    }
}

/// The worth of one position more.
proof fn lemma_total_step(positions: Seq<Position>, given: spec_fn(Seq<char>) -> Option<Double>)
    requires
        positions.len() > 0,
        unrealized(positions, prices_by(positions, given)).finite(),
    ensures
        ({
            let front = positions.drop_last();
            let total = unrealized(positions, prices_by(positions, given));
            let before = unrealized(front, prices_by(front, given));
            let worth = worth_of(positions.last(), given(positions.last().symbol));
            &&& before.finite()
            &&& worth.finite()
            &&& 2 * size_of(total.value() - (before.value() + worth.value())) <= total.gap()
        }),
{
    let prices = prices_by(positions, given);
    let front = positions.drop_last();
    let total = unrealized(positions, prices);
    let before = unrealized(front, prices);
    let worth = worth_of(positions.last(), given(positions.last().symbol));
    assert(prices[positions.len() - 1] == given(positions.last().symbol));
    assert(total == before.sum(worth));
    lemma_unrealized_prefix(front, prices_by(front, given), prices);
    sum_is_near(before, worth);
}

/// The worth of positions lies as near to the exact one as its gaps say, and every
/// part of it is finite.
#[verifier::rlimit(40)]
proof fn lemma_total(positions: Seq<Position>, given: spec_fn(Seq<char>) -> Option<Double>)
    requires
        unrealized(positions, prices_by(positions, given)).finite(),
    ensures
        2 * size_of(
            unrealized(positions, prices_by(positions, given)).value() * unit() - exact_total(
                positions,
                given,
            ),
        ) <= total_blur(positions, given),
        forall|i: int|
            0 <= i < positions.len() && given((#[trigger] positions[i]).symbol) is Some
                ==> given(positions[i].symbol)->0.difference(positions[i].entry).product(
                positions[i].size,
            ).finite(),
    decreases positions.len(),
{
    lemma_unit();
    if positions.len() == 0 {
        rounding::lemma_magnitude_of(0, 0);
        rounding::lemma_powers();
        assert(unrealized(positions, prices_by(positions, given)).value() == 0);
        assert(0 * unit() == 0);
    } else {
        let front = positions.drop_last();
        let last = positions.last();
        let mark = given(last.symbol);
        let total = unrealized(positions, prices_by(positions, given));
        let before = unrealized(front, prices_by(front, given));
        let worth = worth_of(last, mark);
        lemma_total_step(positions, given);
        lemma_total(front, given);
        lemma_worth_or_none(last, mark);
        lemma_summed(
            total.value(),
            before.value(),
            worth.value(),
            total.gap(),
            exact_total(front, given),
            exact_worth(last, mark),
            total_blur(front, given),
            worth_blur(last, mark),
        );
        assert forall|i: int|
            0 <= i < positions.len() && given((#[trigger] positions[i]).symbol) is Some implies
            given(positions[i].symbol)->0.difference(positions[i].entry).product(
            positions[i].size,
        ).finite() by {
            if i < front.len() {
                assert(front[i] == positions[i]);
            }
        }
    }
}

/// A sum of two results, in squared units.
proof fn lemma_summed(
    total: int,
    a: int,
    b: int,
    gap: int,
    exact_a: int,
    exact_b: int,
    blur_a: int,
    blur_b: int,
)
    requires
        2 * size_of(total - (a + b)) <= gap,
        2 * size_of(a * unit() - exact_a) <= blur_a,
        2 * size_of(b * unit() - exact_b) <= blur_b,
    ensures
        2 * size_of(total * unit() - (exact_a + exact_b)) <= blur_a + blur_b + gap * unit(),
{
    lemma_unit();
    let slip = total - (a + b);
    lemma_scaled(slip, gap, unit());
    assert(slip * unit() == total * unit() - a * unit() - b * unit()) by (nonlinear_arith)
        requires
            slip == total - (a + b),
    ;
}

/// The exact amount that an account stands for.
spec fn exact_equity(account: Account, given: spec_fn(Seq<char>) -> Option<Double>) -> int {
    account.cash.value() * unit() + exact_total(account.positions, given)
}

/// The equity lies as near to the exact amount as its gaps say.
proof fn lemma_equity(account: Account, given: spec_fn(Seq<char>) -> Option<Double>)
    requires
        account.equity(given).finite(),
    ensures
        account.cash.finite(),
        2 * size_of(account.equity(given).value() * unit() - exact_equity(account, given))
            <= account.equity_blur(given),
        forall|i: int|
            0 <= i < account.positions.len() && given((#[trigger] account.positions[i]).symbol) is
                Some ==> given(account.positions[i].symbol)->0.difference(
                account.positions[i].entry,
            ).product(account.positions[i].size).finite(),
{
    let total = unrealized(account.positions, prices_by(account.positions, given));
    let result = account.equity(given);
    lemma_unit();
    sum_is_near(account.cash, total);
    lemma_total(account.positions, given);
    let slip = result.value() - (account.cash.value() + total.value());
    lemma_scaled(slip, result.gap(), unit());
    assert(slip * unit() == result.value() * unit() - account.cash.value() * unit() - total.value()
        * unit()) by (nonlinear_arith)
        requires
            slip == result.value() - (account.cash.value() + total.value()),
    ;
}

/// Another position in the place of one changes the exact worth by their own.
proof fn lemma_exact_update(
    positions: Seq<Position>,
    given: spec_fn(Seq<char>) -> Option<Double>,
    at: int,
    position: Position,
)
    requires
        0 <= at < positions.len(),
    ensures
        exact_total(positions.update(at, position), given) == exact_total(positions, given)
            - exact_worth(positions[at], given(positions[at].symbol)) + exact_worth(
            position,
            given(position.symbol),
        ),
    decreases positions.len(),
{
    let after = positions.update(at, position);
    if at == positions.len() - 1 {
        assert(after.drop_last() == positions.drop_last());
    } else {
        lemma_exact_update(positions.drop_last(), given, at, position);
        assert(after.drop_last() == positions.drop_last().update(at, position));
    }
}

/// A position that goes takes its exact worth with it.
proof fn lemma_exact_remove(
    positions: Seq<Position>,
    given: spec_fn(Seq<char>) -> Option<Double>,
    at: int,
)
    requires
        0 <= at < positions.len(),
    ensures
        exact_total(positions.remove(at), given) == exact_total(positions, given) - exact_worth(
            positions[at],
            given(positions[at].symbol),
        ),
    decreases positions.len(),
{
    let after = positions.remove(at);
    if at == positions.len() - 1 {
        assert(after == positions.drop_last());
    } else {
        lemma_exact_remove(positions.drop_last(), given, at);
        assert(after.drop_last() == positions.drop_last().remove(at));
        assert(after.last() == positions.last());
    }
}

/// Sizes that go the same way have the same sign, and their sum has it, too.
#[verifier::rlimit(40)]
proof fn lemma_same_way(current: Double, signed: Double)
    requires
        current.finite(),
        signed.finite(),
        adds(current, signed),
        !current.absolute().below(Double { bits: EPSILON }),
        current.sum(signed).finite(),
    ensures
        current.negative() == signed.negative(),
        !current.sum(signed).zero(),
        2 * size_of(
            size_of(current.sum(signed).value()) - (size_of(current.value()) + size_of(
                signed.value(),
            )),
        ) <= current.sum(signed).gap(),
        current.negative() ==> current.value() <= 0 && signed.value() <= 0 && current.sum(
            signed,
        ).value() <= 0,
        !current.negative() ==> current.value() >= 0 && signed.value() >= 0 && current.sum(
            signed,
        ).value() >= 0,
{
    let sum = current.sum(signed);
    lemma_negation(current);
    lemma_negation(signed);
    assert(current.code() > 0);
    assert(current.negative() == signed.negative());
    rounding::lemma_magnitude_of(0, 0);
    rounding::lemma_powers();
    rounding::lemma_magnitude_grows(0, current.code());
    rounding::lemma_magnitude_step(signed.code());
    sum_is_near(current, signed);
    let n = size_of(current.value() + signed.value());
    assert(n > 0);
    rounding::nearest_code_exists(n, 1);
    let code = Double::nearest_code(n, 1);
    assert(sum.negative() == current.negative() && sum.code() == code);
    if code == 0 {
        rounding::lemma_magnitude_of(0, 1);
        assert(Double::magnitude(1) == 1);
    }
    rounding::lemma_magnitude_step(code);
}

/// The identity behind growth: what the entry, the products and the sums miss.
proof fn lemma_growth_identity(
    m: int,
    e: int,
    c: int,
    s: int,
    n: int,
    q: int,
    old: int,
    new: int,
    both: int,
    u: int,
)
    ensures
        (m - q) * n - (m - e) * c == (n - (c + s)) * m - (q * n - both * u) - (both - (old + new))
            * u - (old * u - e * c) - (new * u - m * s),
{
    assert((m - q) * n == m * n - q * n) by (nonlinear_arith);
    assert((m - e) * c == m * c - e * c) by (nonlinear_arith);
    assert((n - (c + s)) * m == m * n - m * c - m * s) by (nonlinear_arith);
    assert((both - (old + new)) * u == both * u - old * u - new * u) by (nonlinear_arith);
}

/// A position that grows at the mark keeps its exact worth, as far as its gaps say.
proof fn lemma_growth(position: Position, signed: Double, price: Double)
    requires
        price.finite(),
        position.entry.finite(),
        position.size.finite(),
        signed.finite(),
        adds(position.size, signed),
        !position.size.absolute().below(Double { bits: EPSILON }),
        position.size.sum(signed).finite(),
        super::grown_entry(position, signed, price).finite(),
    ensures
        ({
            let entry = super::grown_entry(position, signed, price);
            2 * size_of(
                (price.value() - entry.value()) * position.size.sum(signed).value() - (
                price.value() - position.entry.value()) * position.size.value(),
            ) <= growth_blur(position, signed, price)
        }),
{
    let current = position.size;
    let size = current.sum(signed);
    let old = position.entry.product(current.absolute());
    let new = price.product(signed.absolute());
    let both = old.sum(new);
    let entry = both.quotient(size.absolute());
    lemma_unit();
    lemma_negation(current);
    lemma_negation(signed);
    lemma_negation(size);
    lemma_same_way(current, signed);
    quotient_is_near(both, size.absolute());
    sum_is_near(old, new);
    product_is_near(position.entry, current.absolute());
    product_is_near(price, signed.absolute());
    let m = price.value();
    let e = position.entry.value();
    let c = size_of(current.value());
    let s = size_of(signed.value());
    let n = size_of(size.value());
    lemma_growth_identity(
        m,
        e,
        c,
        s,
        n,
        entry.value(),
        old.value(),
        new.value(),
        both.value(),
        unit(),
    );
    lemma_scaled(n - (c + s), size.gap(), m);
    lemma_scaled(both.value() - (old.value() + new.value()), both.gap(), unit());
    let kept = (m - entry.value()) * n - (m - e) * c;
    assert((old.gap() + new.gap() + both.gap()) * unit() == old.gap() * unit() + new.gap() * unit()
        + both.gap() * unit()) by (nonlinear_arith);
    assert(size.gap() * size_of(m) == size_of(m) * size.gap()) by (nonlinear_arith);
    assert(2 * size_of(kept) <= growth_blur(position, signed, price));
    if current.negative() {
        assert((m - entry.value()) * size.value() == -((m - entry.value()) * n))
            by (nonlinear_arith)
            requires
                size.value() == -n,
        ;
        assert((m - e) * current.value() == -((m - e) * c)) by (nonlinear_arith)
            requires
                current.value() == -c,
        ;
    }
}

/// Sizes that go against each other.
proof fn lemma_against(current: Double, signed: Double)
    requires
        current.finite(),
        signed.finite(),
        !adds(current, signed),
    ensures
        current.negative() != signed.negative(),
        current.negative() ==> current.value() <= 0 && signed.value() >= 0,
        !current.negative() ==> current.value() >= 0 && signed.value() <= 0,
        ({
            let closing = current.absolute().smaller(signed.absolute());
            &&& closing.finite()
            &&& closing.value() == if size_of(signed.value()) < size_of(current.value()) {
                size_of(signed.value())
            } else {
                size_of(current.value())
            }
        }),
{
    lemma_negation(current);
    lemma_negation(signed);
    rounding::lemma_magnitude_step(current.code());
    rounding::lemma_magnitude_step(signed.code());
    let a = current.code();
    let b = signed.code();
    if a <= b {
        rounding::lemma_magnitude_grows(a, b);
    } else {
        rounding::lemma_magnitude_grows(b, a);
    }
}

/// What a closing fill gains is what the closed size was worth, as far as its gaps
/// say.
proof fn lemma_gain(position: Position, signed: Double, price: Double)
    requires
        position.size.finite(),
        signed.finite(),
        !adds(position.size, signed),
        gain(position, signed, price).finite(),
    ensures
        price.finite(),
        position.entry.finite(),
        ({
            let closing = position.size.absolute().smaller(signed.absolute()).value();
            let way = price.difference(position.entry);
            let closed = (price.value() - position.entry.value()) * closing;
            &&& way.finite()
            &&& 2 * size_of(
                gain(position, signed, price).value() * unit() - if position.size.negative() {
                    -closed
                } else {
                    closed
                },
            ) <= way.product(
                position.size.absolute().smaller(signed.absolute()),
            ).gap() * unit() + way.gap() * closing
        }),
{
    let closing = position.size.absolute().smaller(signed.absolute());
    let way = price.difference(position.entry);
    let part = way.product(closing);
    let sign = position.size.unit_sign();
    lemma_unit();
    lemma_against(position.size, signed);
    product_is_near(part, sign);
    lemma_unit_product(part);
    lemma_negation(part);
    product_is_near(way, closing);
    lemma_difference(price, position.entry);
    let exact = price.value() - position.entry.value();
    lemma_scaled(way.value() - exact, way.gap(), closing.value());
    assert((way.value() - exact) * closing.value() == way.value() * closing.value() - exact
        * closing.value()) by (nonlinear_arith);
    assert((-part.value()) * unit() == -(part.value() * unit())) by (nonlinear_arith);
}

/// A fill against a position, at the mark: gain and what is left come to what the
/// position was worth, but for what is dropped and as far as the gaps say.
proof fn lemma_closing(position: Position, signed: Double, price: Double, left: int)
    requires
        position.size.finite(),
        signed.finite(),
        position.size.sum(signed).finite(),
        !adds(position.size, signed),
        gain(position, signed, price).finite(),
        ({
            let size = position.size.sum(signed);
            left == if !size.absolute().below(Double { bits: DUST }) && size.unit_sign().same(
                position.size.unit_sign(),
            ) {
                (price.value() - position.entry.value()) * size.value()
            } else {
                0
            }
        }),
    ensures
        2 * size_of(
            gain(position, signed, price).value() * unit() + left - (price.value()
                - position.entry.value()) * position.size.value(),
        ) <= closing_blur(position, signed, price) + 2 * (size_of(
            price.value() - position.entry.value(),
        ) * dropped_size(position.size, signed)),
{
    let current = position.size;
    let size = current.sum(signed);
    let dust = Double { bits: DUST };
    let exact = price.value() - position.entry.value();
    let closing = current.absolute().smaller(signed.absolute()).value();
    let c = size_of(current.value());
    let s = size_of(signed.value());
    lemma_unit();
    lemma_against(current, signed);
    lemma_gain(position, signed, price);
    sum_is_near(current, signed);
    gap_is_small(size);
    lemma_negation(size);
    let slip = size.value() - (current.value() + signed.value());
    lemma_scaled(slip, size.gap(), exact);
    assert(size.gap() * size_of(exact) == size_of(exact) * size.gap()) by (nonlinear_arith);
    assert(size_of(exact) * size.gap() >= 0) by (nonlinear_arith)
        requires
            size_of(exact) >= 0,
            size.gap() > 0,
    ;
    let turned = if current.negative() {
        -(exact * closing)
    } else {
        exact * closing
    };
    if size.absolute().below(dust) {
        let rest = c - closing;
        assert(exact * closing - exact * c == -(exact * rest)) by (nonlinear_arith)
            requires
                rest == c - closing,
        ;
        lemma_scaled(exact, 2 * size_of(exact), rest);
        assert(2 * size_of(exact) * size_of(rest) == 2 * (size_of(exact) * rest))
            by (nonlinear_arith)
            requires
                size_of(rest) == rest,
        ;
        lemma_turned(exact, current.value(), c, current.negative());
    } else {
        lemma_sum_sign(current, signed);
        lemma_turned(exact, current.value(), c, current.negative());
        assert(size_of(exact) * 0 == 0);
        if size.unit_sign().same(current.unit_sign()) {
            assert(closing == s);
            lemma_turned(exact, signed.value(), s, !current.negative());
            assert(slip * exact == exact * size.value() - exact * current.value() - exact
                * signed.value()) by (nonlinear_arith)
                requires
                    slip == size.value() - (current.value() + signed.value()),
            ;
        } else {
            assert(closing == c);
        }
    }
}

proof fn lemma_turned(x: int, value: int, size: int, negative: bool)
    requires
        value == if negative {
            -size
        } else {
            size
        },
    ensures
        x * value == if negative {
            -(x * size)
        } else {
            x * size
        },
{
    assert(x * (-size) == -(x * size)) by (nonlinear_arith);
}

/// A sum that is not next to nothing has the sign of the larger size.
proof fn lemma_sum_sign(current: Double, signed: Double)
    requires
        current.finite(),
        signed.finite(),
        !adds(current, signed),
        current.sum(signed).finite(),
        !current.sum(signed).absolute().below(Double { bits: DUST }),
    ensures
        current.sum(signed).unit_sign().same(current.unit_sign()) == (size_of(signed.value())
            < size_of(current.value())),
{
    lemma_against(current, signed);
    let sum = current.sum(signed);
    let exact = current.value() + signed.value();
    lemma_negation(sum);
    if exact != 0 {
        rounding::nearest_code_exists(size_of(exact), 1);
        assert(sum.negative() == (exact < 0));
    }
}

/// The dropped size is less than a billionth.
proof fn lemma_dropped(current: Double, signed: Double)
    requires
        current.finite(),
        signed.finite(),
    ensures
        0 <= dropped_size(current, signed) < (Double { bits: DUST }).value(),
{
    let dust = Double { bits: DUST };
    let tiny = Double { bits: EPSILON };
    lemma_negation(current);
    rounding::lemma_magnitude_of(0, 0);
    rounding::lemma_powers();
    rounding::lemma_magnitude_grows(0, dust.code());
    if adds(current, signed) {
        if current.absolute().below(tiny) {
            rounding::lemma_magnitude_grows(current.code(), tiny.code());
            rounding::lemma_magnitude_grows(tiny.code(), dust.code());
        }
    } else if current.sum(signed).absolute().below(dust) {
        lemma_against(current, signed);
        sum_keeps_below(current, signed, dust);
    }
}

/// Booking a gain misses at most half a gap.
proof fn lemma_booked(cash: Double, gained: Double)
    requires
        cash.sum(gained).finite(),
    ensures
        gained.finite(),
        2 * size_of(
            cash.sum(gained).value() * unit() - cash.value() * unit() - gained.value() * unit(),
        ) <= cash.sum(gained).gap() * unit(),
{
    let sum = cash.sum(gained);
    lemma_unit();
    sum_is_near(cash, gained);
    let slip = sum.value() - (cash.value() + gained.value());
    lemma_scaled(slip, sum.gap(), unit());
    assert(slip * unit() == sum.value() * unit() - cash.value() * unit() - gained.value() * unit())
        by (nonlinear_arith)
        requires
            slip == sum.value() - (cash.value() + gained.value()),
    ;
}

/// A fill at the mark moves the exact worth of the positions by what it gains, the
/// other way, but for what is dropped and as far as the gaps say.
proof fn lemma_positions(
    account: Account,
    given: spec_fn(Seq<char>) -> Option<Double>,
    symbol: Seq<char>,
    signed: Double,
    mark: Double,
)
    requires
        signed.finite(),
        mark.finite(),
        given(symbol) == Some(mark),
        account.equity(given).finite(),
        ({
            let after = Account {
                cash: account.cash.sum(realized(account.positions, symbol, signed, mark)),
                positions: positions_after(
                    account.positions,
                    symbol,
                    signed,
                    mark,
                    account.leverage,
                ),
                ..account
            };
            after.equity(given).finite()
        }),
    ensures
        ({
            let after = positions_after(account.positions, symbol, signed, mark, account.leverage);
            let gained = realized(account.positions, symbol, signed, mark);
            &&& 2 * size_of(
                gained.value() * unit() + exact_total(after, given) - exact_total(
                    account.positions,
                    given,
                ),
            ) <= fill_blur(account, symbol, signed, mark) - account.cash.sum(gained).gap()
                * unit() + 2 * dropped_worth(account.positions, symbol, signed, mark)
            &&& place_of(account.positions, symbol) < account.positions.len() ==> account.positions[
                place_of(account.positions, symbol)
            ].size.finite()
        }),
{
    let positions = account.positions;
    let at = place_of(positions, symbol);
    let gained = realized(positions, symbol, signed, mark);
    let after = positions_after(positions, symbol, signed, mark, account.leverage);
    let result = Account { cash: account.cash.sum(gained), positions: after, ..account };
    lemma_unit();
    lemma_place_of(positions, symbol);
    lemma_equity(account, given);
    lemma_equity(result, given);
    lemma_booked(account.cash, gained);
    rounding::lemma_magnitude_of(0, 0);
    rounding::lemma_powers();
    assert((Double { bits: 0 }).value() == 0);
    assert(0 * unit() == 0);
    if at >= positions.len() {
        assert(after.drop_last() == positions);
        assert((mark.value() - mark.value()) * signed.value() == 0) by (nonlinear_arith);
    } else {
        let position = positions[at];
        let exact = mark.value() - position.entry.value();
        lemma_worth(position, mark);
        let size = position.size.sum(signed);
        if adds(position.size, signed) {
            let entry = super::grown_entry(position, signed, mark);
            let grown = Position { size, entry, ..position };
            lemma_exact_update(positions, given, at, grown);
            assert(after[at] == grown);
            lemma_worth(grown, mark);
            if position.size.absolute().below(Double { bits: EPSILON }) {
                assert((mark.value() - mark.value()) * size.value() == 0) by (nonlinear_arith);
                lemma_scaled(exact, 2 * size_of(exact), position.size.value());
                assert(2 * size_of(exact) * size_of(position.size.value()) == 2 * (size_of(exact)
                    * size_of(position.size.value()))) by (nonlinear_arith);
            } else {
                lemma_growth(position, signed, mark);
                assert(size_of(exact) * 0 == 0);
            }
        } else if size.absolute().below(Double { bits: DUST }) {
            lemma_negation(size);
            lemma_exact_remove(positions, given, at);
            lemma_closing(position, signed, mark, 0);
        } else {
            let kept = size.unit_sign().same(position.size.unit_sign());
            let turned = Position {
                size,
                entry: if kept {
                    position.entry
                } else {
                    mark
                },
                ..position
            };
            lemma_exact_update(positions, given, at, turned);
            assert(after[at] == turned);
            lemma_worth(turned, mark);
            assert((mark.value() - mark.value()) * size.value() == 0) by (nonlinear_arith);
            lemma_closing(position, signed, mark, exact_worth(turned, Some(mark)));
        }
    }
}

/// An order to the market that is not refused leaves the equity as it was, by
/// prices of which the market's is the mark: whether it opens a position, adds to
/// it, reduces, closes or turns it, it moves profit between cash and position and
/// makes none. This holds up to half the gaps of the results on the way and up to
/// what the dropped size was worth, which is less than a billionth. Left out is
/// equity that is not finite, before or after.
pub proof fn market_order_keeps_equity(
    account: Account,
    given: spec_fn(Seq<char>) -> Option<Double>,
    symbol: Seq<char>,
    is_long: bool,
    size: Double,
    price: Double,
    mark: Double,
)
    requires
        account.complaint(size, price, mark) is None,
        given(symbol) == Some(mark),
        account.equity(given).finite(),
        account.placed(symbol, is_long, false, size, price, mark).equity(given).finite(),
    ensures
        ({
            let after = account.placed(symbol, is_long, false, size, price, mark);
            let signed = if is_long {
                size
            } else {
                size.negation()
            };
            let at = place_of(account.positions, symbol);
            &&& 2 * size_of(after.equity(given).value() - account.equity(given).value()) * unit()
                <= account.equity_blur(given) + after.equity_blur(given) + fill_blur(
                account,
                symbol,
                signed,
                mark,
            ) + 2 * dropped_worth(account.positions, symbol, signed, mark)
            &&& at < account.positions.len() ==> 0 <= dropped_size(
                account.positions[at].size,
                signed,
            ) < (Double { bits: DUST }).value()
        }),
{
    let after = account.placed(symbol, is_long, false, size, price, mark);
    let signed = if is_long {
        size
    } else {
        size.negation()
    };
    let gained = realized(account.positions, symbol, signed, mark);
    let result = Account {
        cash: account.cash.sum(gained),
        positions: positions_after(
            account.positions,
            symbol,
            signed,
            mark,
            account.leverage,
        ),
        ..account
    };
    lemma_unit();
    lemma_negation(size);
    assert(usable(size) && usable(mark));
    assert(after.equity(given) == result.equity(given));
    lemma_positions(account, given, symbol, signed, mark);
    lemma_equity(account, given);
    lemma_equity(after, given);
    lemma_booked(account.cash, gained);
    let at = place_of(account.positions, symbol);
    lemma_place_of(account.positions, symbol);
    if at < account.positions.len() {
        lemma_dropped(account.positions[at].size, signed);
    }
    let x = after.equity(given).value();
    let y = account.equity(given).value();
    assert(size_of(x - y) * unit() == size_of(x * unit() - y * unit())) by (nonlinear_arith)
        requires
            unit() > 0,
    ;
    assert(2 * size_of(x - y) * unit() == 2 * (size_of(x - y) * unit())) by (nonlinear_arith);
}

/// The equity is the cash and, for each position whose market has a price, the size
/// times the way from the entry to that price, as far as the gaps say.
pub proof fn equity_is_cash_and_worth(
    account: Account,
    given: spec_fn(Seq<char>) -> Option<Double>,
)
    requires
        account.equity(given).finite(),
    ensures
        2 * size_of(
            account.equity(given).value() * unit() - (account.cash.value() * unit() + exact_total(
                account.positions,
                given,
            )),
        ) <= account.equity_blur(given),
{
    lemma_equity(account, given);
}

/// A fill against a position gains the way from the entry to the price times the size
/// that is closed, the smaller of the two: for a long position where the price is
/// higher, for a short one where it is lower. This holds as far as the gaps say.
#[verifier::rlimit(40)]
pub proof fn closing_gains_the_way(
    positions: Seq<Position>,
    symbol: Seq<char>,
    signed: Double,
    price: Double,
)
    requires
        place_of(positions, symbol) < positions.len(),
        positions[place_of(positions, symbol)].size.finite(),
        signed.finite(),
        positions[place_of(positions, symbol)].size.value() < 0 < signed.value() || signed.value()
            < 0 < positions[place_of(positions, symbol)].size.value(),
        realized(positions, symbol, signed, price).finite(),
    ensures
        ({
            let position = positions[place_of(positions, symbol)];
            let c = size_of(position.size.value());
            let s = size_of(signed.value());
            let closed = if c < s {
                c
            } else {
                s
            };
            let way = price.difference(position.entry);
            let exact = (price.value() - position.entry.value()) * closed;
            2 * size_of(
                realized(positions, symbol, signed, price).value() * unit() - if position.size.value()
                    < 0 {
                    -exact
                } else {
                    exact
                },
            ) <= way.product(
                position.size.absolute().smaller(signed.absolute()),
            ).gap() * unit() + way.gap() * closed
        }),
{
    let position = positions[place_of(positions, symbol)];
    lemma_place_of(positions, symbol);
    rounding::lemma_magnitude_of(0, 0);
    rounding::lemma_powers();
    rounding::lemma_magnitude_step(position.size.code());
    rounding::lemma_magnitude_step(signed.code());
    assert(position.size.negative() != signed.negative());
    assert(position.size.code() > 0 && signed.code() > 0);
    assert(!adds(position.size, signed));
    lemma_against(position.size, signed);
    lemma_gain(position, signed, price);
}

/// A fill that goes the way of a position gains nothing and averages the entry by
/// size: the new entry times the new size is the old entry times the old size and the
/// price times the fill's size, as far as the gaps say.
#[verifier::rlimit(40)]
pub proof fn growing_averages_the_entry(
    positions: Seq<Position>,
    symbol: Seq<char>,
    signed: Double,
    price: Double,
    leverage: Double,
)
    requires
        place_of(positions, symbol) < positions.len(),
        positions[place_of(positions, symbol)].size.finite(),
        signed.finite(),
        positions[place_of(positions, symbol)].size.value() > 0 && signed.value() > 0
            || positions[place_of(positions, symbol)].size.value() < 0 && signed.value() < 0,
        !positions[place_of(positions, symbol)].size.absolute().below(Double { bits: EPSILON }),
        positions[place_of(positions, symbol)].size.sum(signed).finite(),
        positions_after(positions, symbol, signed, price, leverage)[place_of(
            positions,
            symbol,
        )].entry.finite(),
    ensures
        ({
            let at = place_of(positions, symbol);
            let old = positions[at];
            let after = positions_after(positions, symbol, signed, price, leverage);
            let new = after[at];
            &&& after.len() == positions.len()
            &&& new.symbol == symbol && new.leverage == old.leverage
            &&& 2 * size_of(new.size.value() - (old.size.value() + signed.value()))
                <= new.size.gap()
            &&& 2 * size_of(
                new.entry.value() * size_of(new.size.value()) - (old.entry.value() * size_of(
                    old.size.value(),
                ) + price.value() * size_of(signed.value())),
            ) <= new.entry.gap() * size_of(new.size.value()) + (old.entry.product(
                old.size.absolute(),
            ).gap() + price.product(signed.absolute()).gap() + old.entry.product(
                old.size.absolute(),
            ).sum(price.product(signed.absolute())).gap()) * unit()
            &&& realized(positions, symbol, signed, price) == (Double { bits: 0 })
        }),
{
    let at = place_of(positions, symbol);
    let position = positions[at];
    lemma_place_of(positions, symbol);
    lemma_adds(position.size, signed);
    sum_is_near(position.size, signed);
    lemma_average(position, signed, price);
}

/// Sizes of one sign go the same way.
proof fn lemma_adds(current: Double, signed: Double)
    requires
        current.finite(),
        signed.finite(),
        current.value() > 0 && signed.value() > 0 || current.value() < 0 && signed.value() < 0,
    ensures
        adds(current, signed),
{
    rounding::lemma_magnitude_of(0, 0);
    rounding::lemma_powers();
    rounding::lemma_magnitude_step(current.code());
    rounding::lemma_magnitude_step(signed.code());
    assert(current.negative() == signed.negative());
}

/// The average of two prices, by size.
proof fn lemma_average(position: Position, signed: Double, price: Double)
    requires
        position.size.finite(),
        signed.finite(),
        adds(position.size, signed),
        !position.size.absolute().below(Double { bits: EPSILON }),
        position.size.sum(signed).finite(),
        super::grown_entry(position, signed, price).finite(),
    ensures
        ({
            let entry = super::grown_entry(position, signed, price);
            let size = position.size.sum(signed);
            let old = position.entry.product(position.size.absolute());
            let new = price.product(signed.absolute());
            2 * size_of(
                entry.value() * size_of(size.value()) - (position.entry.value() * size_of(
                    position.size.value(),
                ) + price.value() * size_of(signed.value())),
            ) <= entry.gap() * size_of(size.value()) + (old.gap() + new.gap() + old.sum(new).gap())
                * unit()
        }),
{
    let current = position.size;
    let size = current.sum(signed);
    let old = position.entry.product(current.absolute());
    let new = price.product(signed.absolute());
    let both = old.sum(new);
    let entry = super::grown_entry(position, signed, price);
    assert(entry == both.quotient(size.absolute()));
    lemma_unit();
    lemma_negation(current);
    lemma_negation(signed);
    lemma_negation(size);
    lemma_same_way(current, signed);
    quotient_is_near(both, size.absolute());
    sum_is_near(old, new);
    product_is_near(position.entry, current.absolute());
    product_is_near(price, signed.absolute());
    lemma_averaged(
        entry.value() * size_of(size.value()),
        position.entry.value() * size_of(current.value()),
        price.value() * size_of(signed.value()),
        old.value(),
        new.value(),
        both.value(),
        entry.gap() * size_of(size.value()),
        old.gap(),
        new.gap(),
        both.gap(),
    );
}

/// The sums behind an average.
proof fn lemma_averaged(
    whole: int,
    a: int,
    b: int,
    old: int,
    new: int,
    both: int,
    gap: int,
    old_gap: int,
    new_gap: int,
    both_gap: int,
)
    requires
        2 * size_of(whole - both * unit()) <= gap,
        2 * size_of(both - (old + new)) <= both_gap,
        2 * size_of(old * unit() - a) <= old_gap * unit(),
        2 * size_of(new * unit() - b) <= new_gap * unit(),
    ensures
        2 * size_of(whole - (a + b)) <= gap + (old_gap + new_gap + both_gap) * unit(),
{
    lemma_unit();
    let slip = both - (old + new);
    lemma_scaled(slip, both_gap, unit());
    assert(slip * unit() == both * unit() - old * unit() - new * unit()) by (nonlinear_arith)
        requires
            slip == both - (old + new),
    ;
    assert((old_gap + new_gap + both_gap) * unit() == old_gap * unit() + new_gap * unit() + both_gap
        * unit()) by (nonlinear_arith);
}

} // verus!
